# spectral

A spectral renderer with a verified core: refraction and dispersion in glass,
path tracing with hero wavelengths, light tracing onto a screen, and a haze that
shows a beam of light and the rainbow a prism makes of it.

## Layout

- `src/` is the library. Every function has a contract, and Verus proves it.
  - `scalar`, `convert`, `arith`, `order`, `error`, `double`: binary floating
    point in single and double precision, rounded correctly, on integers; its
    order, and bounds on its rounding errors.
  - `exact`, `fine`, `triple`, `norm`: the numbers and vectors that encodings
    stand for, and how far a rounded result lies from the exact one.
  - `vector`, `geom`, `scene`, `camera`: vectors, shapes and what a ray meets.
  - `rng`, `spectrum`, `sellmeier`, `optics`, `material`, `cie`: random streams,
    wavelengths, glasses, interfaces, and the sensor.
  - `snell`, `mirror`, `refraction`, `transmission`, `reversal`, `fresnel`,
    `grazing`, `squares`, `dispersion`, `glasses`: the laws of reflection,
    refraction and dispersion, with bounds on what rounding leaves of them.
  - `frame`, `viewport`, `projection`: that a camera's projection undoes its rays.
  - `accum`, `tracer`, `lighttrace`, `splat`, `volume`, `picture`: the renderers
    on the processor, and the scene of the prism picture.
  - `haze`, `doubling`: how the light of a haze grows with photons and density,
    and what solids in front take away.
  - `bytes`, `binding`, `upload`, `data`, `film`, `sorting`, `photons`, `device`:
    the host's half of the renderers on the graphics device.
  - `args`, `text`, `capture`, `viewer`: the command line, tables of text,
    pictures read back, and the live viewer's state.
- `tests/` runs the library on concrete values.
- `app/` is the viewer: the window, the device, and files. It reads the tables
  from `data/` and the shaders from `shaders/` in the directory it is started
  in.

## Numbers

A number is held as its encoding, `Scalar` or `Double`. A contract speaks of
the exact result and its rounding, so that it fixes every bit. Sines, cosines,
powers and exponentials are not computed in the library: its functions take
them as arguments, and hold for whatever these return.

## What is trusted

`bytes` reinterprets words as bytes and back by `bytemuck`. Its two private
functions say what the crate does, and nothing checks them.
