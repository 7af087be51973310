//! The pure parts of the command line tool: how it names itself, and how it
//! ends the text it writes.
use vstd::prelude::*;
use crate::options::Eol;

verus! {

/// `tjson-rs` and the version, as the tool reports itself.
pub fn version_text() -> (r: String)
    ensures
        r@ == "tjson-rs 0.9.0"@,
{
    crate::text::lit("tjson-rs 0.9.0")
}

/// What `finalize_output` writes: `output`, and when asked for a final line
/// break that is not already there, the output's line ending after it.
pub open spec fn finalized(output: Seq<char>, add_final_newline: bool, eol: Seq<char>) -> Seq<char> {
    if add_final_newline && !(output.len() > 0 && output.last() == '\n') {
        output + eol
    } else {
        output
    }
}

/// End `output` with a line break in `eol`'s style unless it already ends
/// with one or none was asked for.
pub fn finalize_output(output: String, add_final_newline: bool, eol: Eol) -> (r: String)
    ensures
        r@ == finalized(output@, add_final_newline, match eol {
            Eol::Lf => seq!['\n'],
            Eol::CrLf => seq!['\r', '\n'],
        }),
{
    let chars = crate::text::to_chars(output.as_str());
    let ends = chars.len() > 0 && chars[chars.len() - 1] == '\n';
    if add_final_newline && !ends {
        let mut out = output;
        crate::text::append_lit(&mut out, eol.as_str());
        out
    } else {
        output
    }
}


/// The tool's usage text, with the default wrap width filled in.
pub fn help_text() -> (r: String)
    ensures
        r@ == r#"Usage: tjson [OPTIONS] [-i FILE] [-o FILE]

Convert JSON to TJSON or TJSON to JSON.

Options:
  -t, --tjson                 Output TJSON from JSON input (default)
  -j, --json                  Output pretty JSON from TJSON input
  -i, --input FILE            Read from file instead of stdin
  -o, --output FILE           Write to file instead of stdout
      --[no-]final-newline    Enable/disable final newline (default: on)
  -V, --version               Show program version and exit

TJSON Output Formatting Options (for output TJSON only, not help/errors/JSON):
  General:
  -C, --canonical             One key-value pair per line, no inline packing,
                                no multiline strings, no tables, inf width,
                                otherwise default, other options can override
  -T                          Set wrap and table widths to terminal width
  -w, --width N               Wrap column, 0=unlimited, term=terminal width
                                (default: "#@ + crate::text::decimal(crate::options::DEFAULT_WRAP_WIDTH as nat) + r#")
      --eol VALUE             Output line ending: lf (default), crlf. Prefer lf,
                                use crlf only when a consumer truly requires it.
                                This option may become library-only not cli in
                                favor of platform tools like unix2dos.

  Value formatting:
      --force-markers         Force single-level [ and { markers for
                                nonempty arrays/objects (default: off)
      --[no-]inline           Enable/disable all inline packing (default: on)
      --[no-]inline-object    Enable/disable inline object packing (default: on)
      --[no-]inline-array     Enable/disable inline array packing (default: on)
      --bare-strings VALUE    Bare string policy: prefer, none (default: prefer)
      --bare-keys VALUE       Bare key policy: prefer, none (default: prefer)
      --string-array-style STYLE  String array packing: none, comma, spaces,
                                prefer-spaces, prefer-comma(default)
  -k, --kv-pack-multiple N    Spacing multiplier between packed KV pairs,
                                1-4, spaces = N*2 (default: 2) [experimental]

  Tables:
      --[no-]tables           Enable/disable pipe table rendering (default: on)
      --table-min-rows N      Minimum rows for a table (default: 3)
      --table-min-columns N   Minimum columns for a table (default: 3)
      --table-similarity N    Minimum key-similarity fraction (default: 0.8)
      --table-column-max-width N  Maximum column width in tables (default: 40)
      --table-fold            Enable / fold continuations for wide table rows
                                [experimental]
      --table-unindent-style STYLE
                                Table repositioning: left, auto, floating, none
                                (default: auto)
      --indent-glyph-style STYLE
                                When to use /< /> indent-offset glyphs:
                                auto, fixed, none (default: auto)

  Multiline strings:
      --[no-]multiline        Enable/disable multiline string rendering
                                (default: on)
      --multiline-style STYLE  Style: bold, floating, bold-floating, bold-light,
                                light, transparent, folding-quotes (default: bold)
      --multiline-min-lines N  Minimum EOL count for multiline (default: 1)
      --multiline-max-lines N  Maximum lines before floating falls back to bold,
                                 0=unlimited (default: 10)

  Folding:
      --fold STYLE            Set all fold styles: auto, fixed, none
                                (does not affect --table-fold)
      --fold-bare STYLE       Fold style for bare strings (default: auto)
      --fold-quoted STYLE     Fold style for quoted strings (default: auto)
      --fold-multiline STYLE  Fold style within multiline bodies (default: none)
      --fold-number STYLE     Fold style for numbers (default: auto)
"#@,
{
    let mut m = crate::text::lit(r#"Usage: tjson [OPTIONS] [-i FILE] [-o FILE]

Convert JSON to TJSON or TJSON to JSON.

Options:
  -t, --tjson                 Output TJSON from JSON input (default)
  -j, --json                  Output pretty JSON from TJSON input
  -i, --input FILE            Read from file instead of stdin
  -o, --output FILE           Write to file instead of stdout
      --[no-]final-newline    Enable/disable final newline (default: on)
  -V, --version               Show program version and exit

TJSON Output Formatting Options (for output TJSON only, not help/errors/JSON):
  General:
  -C, --canonical             One key-value pair per line, no inline packing,
                                no multiline strings, no tables, inf width,
                                otherwise default, other options can override
  -T                          Set wrap and table widths to terminal width
  -w, --width N               Wrap column, 0=unlimited, term=terminal width
                                (default: "#);
    crate::text::append_num(&mut m, crate::options::DEFAULT_WRAP_WIDTH);
    crate::text::append_lit(&mut m, r#")
      --eol VALUE             Output line ending: lf (default), crlf. Prefer lf,
                                use crlf only when a consumer truly requires it.
                                This option may become library-only not cli in
                                favor of platform tools like unix2dos.

  Value formatting:
      --force-markers         Force single-level [ and { markers for
                                nonempty arrays/objects (default: off)
      --[no-]inline           Enable/disable all inline packing (default: on)
      --[no-]inline-object    Enable/disable inline object packing (default: on)
      --[no-]inline-array     Enable/disable inline array packing (default: on)
      --bare-strings VALUE    Bare string policy: prefer, none (default: prefer)
      --bare-keys VALUE       Bare key policy: prefer, none (default: prefer)
      --string-array-style STYLE  String array packing: none, comma, spaces,
                                prefer-spaces, prefer-comma(default)
  -k, --kv-pack-multiple N    Spacing multiplier between packed KV pairs,
                                1-4, spaces = N*2 (default: 2) [experimental]

  Tables:
      --[no-]tables           Enable/disable pipe table rendering (default: on)
      --table-min-rows N      Minimum rows for a table (default: 3)
      --table-min-columns N   Minimum columns for a table (default: 3)
      --table-similarity N    Minimum key-similarity fraction (default: 0.8)
      --table-column-max-width N  Maximum column width in tables (default: 40)
      --table-fold            Enable / fold continuations for wide table rows
                                [experimental]
      --table-unindent-style STYLE
                                Table repositioning: left, auto, floating, none
                                (default: auto)
      --indent-glyph-style STYLE
                                When to use /< /> indent-offset glyphs:
                                auto, fixed, none (default: auto)

  Multiline strings:
      --[no-]multiline        Enable/disable multiline string rendering
                                (default: on)
      --multiline-style STYLE  Style: bold, floating, bold-floating, bold-light,
                                light, transparent, folding-quotes (default: bold)
      --multiline-min-lines N  Minimum EOL count for multiline (default: 1)
      --multiline-max-lines N  Maximum lines before floating falls back to bold,
                                 0=unlimited (default: 10)

  Folding:
      --fold STYLE            Set all fold styles: auto, fixed, none
                                (does not affect --table-fold)
      --fold-bare STYLE       Fold style for bare strings (default: auto)
      --fold-quoted STYLE     Fold style for quoted strings (default: auto)
      --fold-multiline STYLE  Fold style within multiline bodies (default: none)
      --fold-number STYLE     Fold style for numbers (default: auto)
"#);
    m
}

} // verus!
