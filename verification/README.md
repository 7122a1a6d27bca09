# mole

Keyboard-only mouse navigation for Linux/X11. A background daemon waits for a
trigger, reads every line of text on screen with OCR, draws an overlay that labels
each phrase with a couple of letters, and teleports (or clicks, or drags) the
pointer to whichever label you type.

The crate has two parts.

* `src/` is the library: everything mole computes or decides, with its behaviour
  stated in contracts and proved by Verus. Every module ends in a section of laws:
  public proof functions that say what the operations promise together, such as
  that no label is a prefix of another, that a scan of an unchanged screen reads
  nothing, or that the overlay is down before any synthetic click.
* `app/` is the program around it: command line, X11 requests, `tesseract`
  processes, cairo drawing, the socket, the accessibility bus and the clipboard.
  It performs what the library asks for and reports back. The glide of free
  movement, which is floating-point arithmetic throughout, stands there too.

Real numbers do not enter the library. A setting that is one is held as its bits
and compared exactly; a factor becomes a table of whole pixels; a confidence is
judged by the caller, row by row.

Outside code that the library calls stands behind small trusted functions, each
with a doc comment that says what is believed of it: `{:?}` formatting and UTF-8
decoding of the standard library, and the modifier and status numbers of x11rb.
