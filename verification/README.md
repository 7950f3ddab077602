# perry_object

The object layer of the Perry JavaScript runtime, written in Verus: objects with
shapes on a collected heap, the side tables that make property access fast, and
the hooks that a moving collector needs.

## Model

* An address is a `usize`, and `Heap` maps addresses to cells: arrays, strings,
  objects, metadata records. Nothing is dereferenced that is not in the heap.
* A value is a NaN-boxed 64-bit word (`JSValue`); numbers are never looked into.
* The state of a thread is passed in, and with it the counter of shape ids,
  which all threads of a process share. What is told to the collector (barriers,
  layout notes) is a list of `GcEvent`s; a root scan runs a `RuntimeRootVisitor`,
  which marks or rewrites.
* Reads that depend on other parts of the runtime (proxies, closures, native
  handles) are run with the answers so far and either decide or ask.

## What is proved

Each function says in its contract what it returns and what it changes. Over
that, public proof functions state laws; among them:

* setting a property changes that property of that object and nothing else
  (`object_ops::set_property_reads_back`), for objects that share keys arrays;
* shape ids are never reused, stay with their shape and tell shapes apart, also
  between threads (`shapes`), and the stamp in an object is true (`world`,
  `object_slots`);
* a read site that was primed by one object is right for every object with the
  same token (`ic`);
* caches are transparent: what they give is what the slow path gives
  (`shape_cache`, `transition`, `ic`);
* a moving collection renames the keys of the side tables (`rekey`).

`world` states the invariant that ties heap and tables together; `ObjectRuntime`
in `runtime` bundles the state that keeps it.

## Layout

`src/` is the library, `tests/` its tests. `app/` is the layer that compiled
programs call: values as doubles, environment variables, standard error, and the trait
by which the rest of the runtime answers.
