# Reef PLC Normalizer

Turns the packed MQTT payloads of a reef-tank PLC into normalized JSON states
and Home Assistant entities, and the requests of Home Assistant into encoded
pump commands. The library is verified with Verus; the program around it only
reads files and talks to the broker.

## The library

| module | what it holds |
| --- | --- |
| `layout` | the packed topics and fields, and the rules a layout must obey |
| `contract` | the PLC's MQTT contract, and the check that the layout agrees with it |
| `normalize` | from packed payload to normalized state |
| `timestamp`, `clock`, `double` | the PLC clock and its offset from the receipt time, rounded as doubles are |
| `command` | requests for the pump: validated, encoded, coalesced, sent one at a time |
| `availability` | the delay between attempts to reconnect, and which states to replay |
| `discovery`, `template` | the discovery records of all entities |
| `session` | what to subscribe and publish on each event of the connection |
| `text`, `numeral`, `json` | text, numerals and JSON values |
| `config` | the options of the app |

Each executable function states its result over mathematical models (`Seq`,
`Map`, `int`). Public proof functions state what holds of several functions
together: which states are replayed, that a command waits for the confirmation
of the one before it, that every data entity depends on both status topics.

## What is taken on trust

`serde_json` holds JSON values and writes them as text, `chrono` turns a
timestamp into milliseconds, and a few functions of the standard library work on
text. Each such call stands behind one declaration whose comment says what is
claimed of it. Floating-point numbers never appear as such: a numeral is handed
to `serde_json` as text, and what it stands for is only named. The clock offset
is rounded as double precision rounds it, in integers.

## The program

`app/` reads the options, the layout and the contract, refuses to start where
they disagree, and then runs the session: it performs the actions that the
library asks for and hands back what the broker delivers.
