# inertia

Lets the pointer glide on after a swipe on the trackpad. While the finger moves,
its path is sampled; when it leaves the trackpad, the most recent part of the path
gives the velocity of a glide, which slows down until it ends or a finger comes
down again. After a gesture with several fingers there is a grace period in which
no glide starts.

- `src/` is the library, verified with Verus. It holds every rule: which events
  move which finger, which samples count, when a glide starts and stops, how far
  the pointer moves, how the trackpad is found in the kernel's list of devices.
- `app/` is the program around it: threads, files, the input device, the virtual
  mouse, and single-precision arithmetic. The library names the operations it
  needs one by one, and its contracts hold for whatever function carries them out.
  Laws about the numbers that come out name what they ask of that function.
- `tests/` runs the library, with the arithmetic of the machine.

Single-precision numbers are held as bit patterns in the library. How they compare,
how integers are rounded to them and what their whole part is, is proved there from
their values.
