# suda_core

Random forests for binary classification that learn one sample at a time and forget one
sample at a time. Each sample is put into a few of the trees; to forget it, only those
trees are touched. The crate is written in
[Verus](https://github.com/verus-lang/verus), and every function of `src/` carries a
contract that is checked against its body.

## Layout

- `src/` is the library.
  - `sample`, `dataset`, `split`, `split_stats`, `scan`: samples, attributes, splits, and
    how good a split is. Attribute values are fixed-point numbers (`fixed`), impurities and
    rates are exact fractions (`fraction`).
  - `node`, `tree`: a tree grows from samples, learns and forgets, puts work off until a
    row passes by, works on what is marked or too old, and splits leaves on the spot.
  - `streaming`: the statistics by which a node notices that another split has become
    better.
  - `forest`: which trees a sample is put into, votes, influences of samples, numbers of
    trees that follow the shares of the classes.
  - `registry`: what is kept of the samples, and which go when there are too many.
  - `metrics`: how good predictions are.
  - `controller`: a forest that follows a stream within a budget.
  - `table`, `order`, `draw`, `random`, `root`, `wide`, `text`: tables by identifier on top
    of `hashbrown`, sorting, draws from the generators of `rand`, square roots, large
    numbers, and numbers as text.
- `tests/` runs the library.
- `app/` holds the Python bindings, with everything that needs floating-point numbers or a
  clock.

## What is proved

The laws are public proof functions, named `law_..`. A tree or a forest represents some
samples if every node counts exactly those that pass through it and each is led to its
leaf. The central laws say that

- a tree or a forest that represents some samples represents exactly the samples that are
  left after some have been forgotten, and exactly those and the new ones after new ones
  have been learnt, as long as each of the new ones ends at a leaf. No tree holds a sample
  that has been forgotten;
- it still represents them after the nodes that are marked or too old have been grown anew,
  so that forgetting can go on. A part that has lost all its samples is gone then, and a new
  sample that would have come to it is not learnt exactly;
- a controller that lets samples go while it follows a stream keeps a forest that has learnt
  exactly the samples that are left, as long as each new one ends at a leaf, and unless it
  is told not to forget or to grow the forest anew from a window;
- forgetting undoes learning, and a tree that is grown anew from its root after forgetting is
  one that growing from the remaining samples alone may give, also when that work is put
  off until a row passes by;
- where work is put off, doing it at a node whose state lists the samples that come to it
  keeps every node exact that does not lie below a marked one, and a row that passes no
  marked node gets the majority of the samples that end where it ends. New states list what
  comes to the nodes, and forgetting keeps the lists up. So a row that passes marked nodes
  leaves every node on its way exact and gets such a majority too. Where a new split is
  sought and none helps, what lies below the node is taken as it is.

The outside calls that the proofs rest on are what is marked `external_body` in `table.rs`
and `random.rs`.
