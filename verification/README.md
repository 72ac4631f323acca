# flight_diagnostics

Analyzers that look for trouble in PX4 flight logs, verified with Verus.

| analyzer | finds |
|---|---|
| `battery_brownout` | voltage below the critical voltage for the battery's cells |
| `ekf_failure` | innovation test ratios above one for seconds on end |
| `gps_interference` | position errors or satellite counts far off the baseline |
| `motor_failure` | motor outputs that drop to zero or stay at the maximum |
| `rc_loss` | loss of the remote control signal in armed flight |

Each analyzer is a state machine. Its state is modelled by a ghost struct
(`RcLossState`, for example) with one spec function for each kind of message that
says what the state becomes; the executable methods are proved to follow it. The
`law_` functions at the end of each module state what holds over several messages.

`on_message` takes a message of the ULog parser and requires that the fields it
reads lie within the message. `try_on_message` checks that first.

Numbers are kept as IEEE 754 bit patterns. `float32` gives them their value as
whole multiples of the smallest positive number, `rounding` and `double_sum` do the
arithmetic, and `decimal` writes them out; the results are those of the machine's
own floating point, bit for bit, which the tests compare.

What is taken on trust is in `message`: what the ULog parser says of a message and
how it reads little-endian numbers.

`app/` reads a log file and runs all analyzers over it.
