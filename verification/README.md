# eup_resizer

Resizes the textures in texture dictionaries (`.ytd` files) and merges packs of
numbered assets into one, giving colliding assets new numbers.

* `src/` is the library. Its functions carry contracts that Verus proves:
  reading and rebuilding dictionaries, choosing target sizes, decoding and
  encoding textures, numbering assets, naming the files of a merged pack,
  merging manifests, and what the window shows. Functions named `law_...` state
  what holds of several of them together.
* `tests/` runs the library on concrete values.
* `app/` is the program around it: the window, the settings file, and everything
  that reads or writes files.

The block codecs (`texture2ddecoder`, `intel_tex_2`, `texpresso`), the resampling
(`image`), the compression (`flate2`) and the flags of resource files
(`rpf_archive`) are called through small wrappers. The doc comment of each says
what is claimed of the function that it calls.
