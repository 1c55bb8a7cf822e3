# numalloc

A NUMA-aware memory allocator whose logic is verified with Verus.

Memory is one contiguous mapping, split into a region per node.  A region is
carved into bags of 32 KiB to 256 KiB, a bag into objects of one of sixteen size
classes.  Free objects are linked through their own first word: on a stack per
node and class, and on a list per thread and class.  Objects above 256 KiB have
mappings of their own, which each thread caches for reuse.  A freed object always
returns to the node that it came from.

## Layout

* `src/` is the verified library.  It never calls the operating system: a
  function that needs memory mapped, unmapped or advised returns a step that says
  so, and its caller performs it.  Memory itself is reached through the `Memory`
  trait, whose contracts describe it as a map from addresses to bytes.
  * `size_class`, `freelist`, `node_heap`, `heap`, `thread_heap`, `large_object`,
    `large_cache` and `allocator` are the allocator, from the inside out;
    `heap_view` is the mathematical model that their contracts speak of.
  * `validate` checks the metadata of a running allocator.
  * `laws` states what holds of the allocator as a whole: objects in use never
    overlap and keep their contents, nothing is lost or handed out twice, a
    reallocation keeps the contents, freed objects go home.  `system` states it
    of large objects too, over any sequence of calls of any number of threads,
    and `running` that each call finds what its function requires and leaves
    what the next one does.
    `interleaving` states it of the single atomic steps on a node's stack.
  * `platform`, `cpulist`, `fuzz_hooks` and `text` interpret what the system says
    about itself.
  * `ops`, `model`, `rng`, `fuzz` and `corpus` are the test harness: operations and
    their byte format, the objects that a test holds, the fuzz targets and their
    seeds.
* `tests/` runs the library on a simulated machine.
* `app/` is the global allocator: mappings, affinity, thread-local storage and
  raw memory around the library, and the runners of the fuzz targets.  It
  serialises access to the shared heap with a lock.
