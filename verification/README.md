# fractal_pie

Lossy image compression by fitting planes to a quadtree, verified with Verus.

A plane `pixel = a*i + b*j + c` is fitted to a square sub-image by least
squares. If its mean-squared error is too great the sub-image is broken up into
four, and each is fitted again. The quadtree of planes is written to a `.pie`
file with an adaptive binary range coder:

    offset  size  field
    0       4     magic "PIE1"
    4       1     mode: 0 = greyscale, 1 = colour (4:2:0 YCbCr)
    5       4     width, little-endian u32
    9       4     height, little-endian u32
    13      8     luma max error as f64 bits, little-endian (metadata)
    21      8     chroma max error as f64 bits, little-endian (metadata)
    29      ..    range-coded quadtree payload

`src/` is the library; every function in it is proved to meet its contract. The
central statements are `law_decoding_undoes_encoding` (what a file decodes to is
what rendering the fitted leaves gives), `law_bits_round_trip` and
`law_integers_round_trip` (the range coder loses nothing), `law_leaves_tile`
(leaves cover each pixel once), `law_decoded_image_is_within_bounds` (the mean
error of every decoded plane is within its bound), `law_looser_bound_prunes` (a
larger bound only merges regions) and `law_solution_is_least_squares` (the sums
that the solver is given are those of the least-squares plane).

Three outside calls are taken on trust, each behind one small function: that
rayon's parallel map keeps the order of its items, what the `png` crate decodes
a file to, and what it encodes samples as. Floating point stays outside: the
solver of the normal equations and the comparison with the error bound are
handed to the library as functions.

`app/` holds the programs around it. `pie-encode` and `pie-decode` convert
between PNG and `.pie`; under any other name the program writes the reference
render of a greyscale fit. The input must be a square PNG.

    pie-encode [input.png] [output.pie] [--max-error N] [--chroma-max-error N]
    pie-decode [input.pie] [output.png]

Edges that are powers of two always work. Other edges work as long as no odd
sub-image along the border has to be split, since its quadrants would reach
beyond the image.
