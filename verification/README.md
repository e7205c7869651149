# rdisruptor

A disruptor: one producer hands events to a graph of consumers through a ring of slots.
Every consumer sees every event, in order, and never before the consumers that it depends
on; the producer never overwrites an event that a consumer still needs; a consumer may
change events in place if it is ordered against every other consumer.

The library in `src/` is verified with Verus.

| module | contents |
| --- | --- |
| `builder`, `graph` | describing a graph of consumers, checking it, putting it in order |
| `producer`, `processor`, `barrier` | the loops of the producer and of a stage, as machines that are told what they observe and answer what to do |
| `protocol` | the producer and the stages together, under any schedule and with cursors that may be read late, and what is guaranteed then |
| `state` | the protocol together with the events: what was published, what each stage was handed, what the slots hold |
| `disruptor` | a disruptor that one owner drives step by step |
| `ring`, `sequence`, `wait` | slots, positions, ways to idle |
| `error`, `text`, `topology` | messages and listings |

`app/` runs the same machines on threads, with shared slots and atomic cursors.
