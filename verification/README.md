# distributed_gol

Conway's Game of Life computed by a broker and a pool of workers, with a controller that
reads the initial image and writes the final one.

- `src/` is the verified library: the wire format (a 40-byte header with a one's complement
  checksum, and a payload of bit-packed cell coordinates), the neighbour count and the
  worker's slice computation on packed coordinates, the broker's splitting of a turn into
  slices and merging of the answers, the controller's packing and unpacking of images, and
  the Game of Life on a grid of bytes split among worker tasks. Its laws (round trips of the
  header, the payload and the call types, the checksum and its independence of the order of the words, the partition of the rows, that a turn
  split among workers gives the whole next world, and that an image read and written back
  comes out transposed) are proof functions in the modules they speak of.
- `tests/` runs the library on concrete values.
- `app/` holds the programs around it: the network I/O of the broker and the workers, the
  turn loop that waits on the workers, and the distributors that talk to the viewer.
