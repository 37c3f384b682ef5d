# cgc

A garbage collector whose collections run in steps, so that boxes can be made, shared and given
back while one is under way.

- `Heap` holds the boxes. `Cgc::new` puts a value in a box and returns a rooted handle to it;
  `Cgc::clone` and `Cgc::drop` make and give back handles.
- A value that is put in a box implements `CgcCompat`, which passes over the handles in it. A
  heap with values of several types holds an enumeration that implements `Holds` for each of them.
- `Heap::step` does one step of a collection, `Heap::collect_garbage` all of them. A box is freed
  exactly if no box with a root reaches it; `model::HeapView::wf` is what holds between any two
  steps, and `laws` is what follows from it.
- `derive_cgccompat` is the text that `#[derive(CgcCompat)]` stands for.

`app/` shares a heap between threads and collects its garbage on a thread of its own.
