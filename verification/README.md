# terrain

The rules behind two tools that make tile trees for a terrain renderer: one
raises a mountain landscape of its own and wears it down, the other paints
mapped ground cover from an OpenStreetMap extract.

`src/` is the library. Each function states in its contract what it returns, and
Verus proves it; what holds of several functions together stands beside them as
public proof functions. `app/` is the program around it: arguments, files,
threads, the graphics card, and the arithmetic on heights and distances, which
is floating point and not proved. Numbers the library only has to compare or
sort reach it as keys (`keys`), numbers it only has to move reach it as they are.

| | |
|---|---|
| Mapped ground | `tags`, `material`, `read`, `stitch`, `assemble`, `coastline`, `sea`, `paint`, `fill`, `mip`, `census` |
| Landscape | `flow`, `queue`, `heap`, `lattice`, `relax`, `extent`, `droplets`, `grid`, `settling`, `noise`, `rocks`, `cover` |
| Tiles and products | `tiles`, `blocks`, `normals`, `products`, `arguments`, `text` |
| Shared | `keys`, `order`, `ids` |

`tests/` runs the library on concrete ground.
