# carry_costs

Carry costs of open positions in a simulated trading venue, verified with Verus.

- `calendar`: civil dates, and the clock of New York.
- `rollover`: the daily broker rollover at 17:00 `America/New_York`.
- `number`: double precision numbers by their bits, and formulas over them.
- `carry`: exposures, marks, notionals and currency conversion.
- `ledger`: the costs of acknowledged adjustments.
- `funding_rate`: perpetual swap funding.
- `cfd_swap`: CFD overnight swap.

A module takes the state of the venue and a timestamp, and returns charges. The amount of a charge
is a formula, which the host evaluates in double precision and hands back as money. The module then
returns the account adjustments, and records their costs once the exchange has acknowledged them.

`app/` is the host side: the venue behind a trait, the evaluation of formulas, shared handles on the
modules, and the Python bindings.
