# himawari-earth

Downloads Himawari-9 full-disk scenes from the public `noaa-himawari9` S3
bucket and renders them: true color, natural color, infrared enhancements,
cloud-top height, a combined day/night sandwich product, and timelapse video.

The library under `src/` is verified with Verus. Each function states in its
contract what it returns, and public proof functions state what holds across
functions: that byte ranges fetch every byte once and that a buffer is filled
however its stream is cut, that a file decodes to the same segment in whatever
order its header blocks come, that the cached files of one slot are told apart
from those of every other, that segments whose lines follow each other make the
disk in whatever order they are given, that the combined product is the
true-color image where there is no temperature and nowhere darker where no
cloud is cold, that frames are numbered in slot order without a gap, and more.

What the library takes from outside stands behind a few trusted items, each
with a doc comment that says what is claimed of it: reading, writing and
truncating times (`chrono`), decompression (`bzip2`), parallel rows (`rayon`),
and the quoting of a text by the standard library.

`app/` is the command-line program around it: arguments, network, files, and
the floating-point color and geometry arithmetic. `tests/` runs the library.
