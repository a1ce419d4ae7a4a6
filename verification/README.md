# wd_style

Reads the caption and icon layout of WinDev controls, verified with Verus.

* `style` decodes the `..Style` property buffer (a 0x04 header followed by
  an adaptive-Huffman LZ stream, modules `bits`, `huffman`, `lzhuf`) and
  classifies the caption position from byte signatures; it also hashes the
  style sheet part and finds the column-title image.
* `steps` counts the stacked animation steps of a button state BMP and cuts
  a multi-step image down to its top step (`bmp` reads the header).
* `layout` (v2) and `layout3` (v3) read caption and icon positions from a
  rendered button image: background and foreground, 8-connected regions
  (`flood`), letter chains, clusters and the position classes.

`app/` holds the C interface (`WDStyle*`, `WDImage*`, `WDLayout*`) and the
floating-point parts of the layout detectors: icon scores, colour means,
ink distances, brightness and colour rounding.
