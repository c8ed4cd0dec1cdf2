# bartrs

Bayesian additive regression trees (BART): a forest of shallow trees whose sum predicts the
response. A step of the sampler replaces a batch of trees in turn, each by a sequential Monte
Carlo run in which particles grow from a single leaf and compete with the tree in place.

The library under `src/` is written in Verus. Its contracts say which numbers each result is
computed from and in which order; its laws say what holds across functions.

| modules | what they hold |
| --- | --- |
| `binary64`, `numerics`, `matrix`, `random`, `draws` | numbers by their encoding, the rounded operations and draws asked of the host, arrays, draws of integers, draws with the states of the generator before and after |
| `tree_model`, `tree`, `predict`, `response`, `pickling` | heap-indexed trees, what they predict, how leaves are proposed, taking trees apart |
| `mutation`, `particle`, `smc`, `splitting`, `resampling`, `weight`, `update` | growing a tree |
| `config`, `data`, `columns`, `settings`, `running_sd`, `state`, `kernel`, `sampler` | the sampler |
| `tree_laws`, `node_laws`, `routing`, `response_laws`, `prediction_laws`, `smc_laws`, `weight_laws`, `kernel_laws`, `sum_laws`, `running_laws`, `repeat_laws`, `run_laws`, `settings_laws` | what holds of every tree, step and run |

Floating-point arithmetic is not modelled. A number is a `Binary64`, its 64-bit encoding, on
which comparisons, rounding to integers and tests for whole numbers are verified. Sums,
products, roots and draws of real numbers come from an implementation of `Numerics`. The
contracts assume nothing of it. Some laws take facts of the arithmetic as hypotheses, such as
that sums of multiples of a unit are exact while they stay small; each such fact stands in the
`requires` of the law that needs it.

Every draw is tied to the generator that is handed in: contracts name the state it is drawn
from and the state it leaves, from the seed of a sampler to the end of a step.

`app/` is the Python extension module around the library, with the floating-point host.
