# oxidd_rules

Verified decision diagram algorithms.

* `complement_edge`: binary decision diagrams with complement edges. `manager` owns the nodes, the
  unique table and the apply cache; `semantics` says which Boolean function an edge stands for;
  `operators` says what each operator computes; `apply_rec_st` and `apply_rec_mt` are the recursive
  algorithms; `BCDDFunctionMT` in `apply_rec_mt` is the Boolean function interface; `valuation`
  evaluates functions, picks satisfying assignments and counts them; `canonicity` shows that equal
  functions have equal edges; `growth` says which nodes are added; `laws` holds the properties that
  span operations.
* `ldd`: list decision diagrams, i.e. sets of vectors. `semantics` says which set an edge stands for;
  `firing` says what it means to fire an event; `closure` is the theory of smallest closed supersets;
  `saturate` computes all vectors that are reachable by firing events, node by node; `arcs`,
  `accumulator` and `level` describe a node that is being saturated; `demand` says which sets have to
  be built on the way; `laws` holds the properties of saturation as a whole.
* `util`: the apply cache, the unique table and the integer logarithm.

Nodes are never removed, and a manager has a fixed capacity: an operation that needs a node when the
store is full returns `OutOfMemory`, and every edge obtained before keeps its meaning. It does so only
if something that it has to build has no edge yet.

Cached results are part of the managers' invariant: an entry is only there if it is what its operator
computes. An operation that is not trivial returns the cached result if there is one, and leaves its
result in the cache otherwise.

`BCDDFunctionMT` splits the work down to a depth that depends on the number of threads of the manager;
the branches of a split are carried out one after the other.
