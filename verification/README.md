# eink_frame

Software for a 7-color e-ink picture frame (800 by 480 pixels): a weather forecast, a
calendar and the astronomy picture of the day, with a status bar, on the panel itself or on a
desktop emulator.

## Layout

- `src/` is the verified library: Verus proves its functions against their contracts. The one
  function it takes on trust is `weather::parse_start`, which calls the `jiff` crate to parse a
  forecast's start time; its contract says what it relies on.
  - `inky`, `emulator`, `hardware`: the frame buffer (the `Panel` trait, its emulated and
    packed hardware forms), the emulator's window and event byte, and the command sequences
    sent to the panel's controller.
  - `rect`, `graphics`, `line`, `circle`, `text`, `font`, `palette`: rectangles, drawing
    primitives (each proved to paint exactly its region), bitmap fonts, text layout and line
    breaking, and the color palettes.
  - `bdf`, `icons`: the font reader (Glyph Bitmap Distribution Format) and the weather icon
    sheet, used to build the graphics resources.
  - `chart`, `weather`, `calendar`, `astronomy`, `status`, `error_screen`, `control`: the
    screens' drawing and layout, and the screen-switching protocol.
- `app/` is the program around the library: configuration, network access, the panel's GPIO
  and SPI lines, the emulator window, archived resources, and the floating-point parts
  (solar times, chart scales, alignment fractions).
- `tests/` exercise the library on concrete values.

Run `eink_frame [--hardware] [config.json]` for the frame, `eink_frame --emulator` for the
emulator window and `eink_frame --build-data` to build `resources/graphics.rkyv` from the
fonts under `fonts/` and the icon sheet under `bitmaps/`.
