//! The command line: its options, how the arguments are read, and what the format and
//! quality options mean.

use vstd::prelude::*;
use crate::pipeline::Output;
use crate::text::{chars_of, same_chars, same_str, split_once, split_once_char, starts, starts_with, parse_u64, parse_u64_spec,
    string_of};

verus! {

/// The lowercase form of a text (`str::to_lowercase`).
pub uninterp spec fn lowercase(s: Seq<char>) -> Seq<char>;

/// `str::to_lowercase`.
#[verifier::external_body]
fn to_lowercase(s: &str) -> (r: String)
    ensures
        r@ == lowercase(s@),
{
    s.to_lowercase()
}

/// The options of a run.
pub struct Options {
    /// Highest video height, or "best"
    pub quality: String,
    pub output: Option<String>,
    pub dir: String,
    pub format: String,
    /// MP3 bitrate in kbps (0: the default)
    pub bitrate: u32,
    pub list: bool,
    pub limit: Option<usize>,
    pub inputs: Vec<String>,
}

/// The options as plain values.
pub struct OptionsView {
    pub quality: Seq<char>,
    pub output: Option<Seq<char>>,
    pub dir: Seq<char>,
    pub format: Seq<char>,
    pub bitrate: u32,
    pub list: bool,
    pub limit: Option<usize>,
    pub inputs: Seq<Seq<char>>,
}

pub open spec fn opt_seq(o: Option<String>) -> Option<Seq<char>> {
    match o {
        Some(s) => Some(s@),
        None => None,
    }
}

impl View for Options {
    type V = OptionsView;

    open spec fn view(&self) -> OptionsView {
        OptionsView {
            quality: self.quality@,
            output: opt_seq(self.output),
            dir: self.dir@,
            format: self.format@,
            bitrate: self.bitrate,
            list: self.list,
            limit: self.limit,
            inputs: Seq::new(self.inputs@.len(), |i: int| self.inputs@[i]@),
        }
    }
}

/// The options before any argument: quality 1080, the current folder, MP4.
pub open spec fn default_options() -> OptionsView {
    OptionsView {
        quality: "1080"@,
        output: None,
        dir: "."@,
        format: "mp4"@,
        bitrate: 0,
        list: false,
        limit: None,
        inputs: Seq::empty(),
    }
}

/// An argument as a flag and an inline value: `--name=value` splits at its first `=`;
/// anything else is a flag with no inline value.
pub open spec fn flag_of(arg: Seq<char>) -> (Seq<char>, Option<Seq<char>>) {
    match split_once(arg, '=') {
        Some((f, v)) => if starts(f, "--"@) { (f, Some(v)) } else { (arg, None) },
        None => (arg, None),
    }
}

pub open spec fn missing(name: Seq<char>) -> Seq<char> {
    "Falta el valor de "@ + name
}

/// A number as `str::parse::<u32>` reads it.
pub open spec fn parse_u32_spec(s: Seq<char>) -> Option<u32> {
    match parse_u64_spec(s) {
        Some(v) => if v <= u32::MAX { Some(v as u32) } else { None },
        None => None,
    }
}

/// A number as `str::parse::<usize>` reads it.
pub open spec fn parse_usize_spec(s: Seq<char>) -> Option<usize> {
    match parse_u64_spec(s) {
        Some(v) => if v <= usize::MAX { Some(v as usize) } else { None },
        None => None,
    }
}

/// Reading the arguments from the `i`-th on: `Ok(None)` asks for the help text. A flag that
/// takes a value uses its inline value or else the next argument; anything that does not
/// start with `-` (or is `-` alone) is an input.
pub open spec fn parse_spec(o: OptionsView, args: Seq<Seq<char>>, i: int) -> Result<Option<OptionsView>, Seq<char>>
    decreases args.len() - i,
{
    if i < 0 || i >= args.len() {
        Ok(Some(o))
    } else {
        let arg = args[i];
        let (flag, inline) = flag_of(arg);
        let val: Option<(Seq<char>, int)> = match inline {
            Some(v) => Some((v, i + 1)),
            None => if i + 1 < args.len() { Some((args[i + 1], i + 2)) } else { None },
        };
        if flag == "-q"@ || flag == "--quality"@ {
            match val {
                None => Err(missing("--quality"@)),
                Some((v, j)) => parse_spec(OptionsView { quality: v, ..o }, args, j),
            }
        } else if flag == "-o"@ || flag == "--output"@ {
            match val {
                None => Err(missing("--output"@)),
                Some((v, j)) => parse_spec(OptionsView { output: Some(v), ..o }, args, j),
            }
        } else if flag == "-d"@ || flag == "--dir"@ {
            match val {
                None => Err(missing("--dir"@)),
                Some((v, j)) => parse_spec(OptionsView { dir: v, ..o }, args, j),
            }
        } else if flag == "-a"@ || flag == "--audio"@ {
            parse_spec(OptionsView { format: "m4a"@, ..o }, args, i + 1)
        } else if flag == "-f"@ || flag == "--format"@ {
            match val {
                None => Err(missing("--format"@)),
                Some((v, j)) => parse_spec(OptionsView { format: lowercase(v), ..o }, args, j),
            }
        } else if flag == "-b"@ || flag == "--bitrate"@ {
            match val {
                None => Err(missing("--bitrate"@)),
                Some((v, j)) => match parse_u32_spec(v) {
                    None => Err("El valor de --bitrate debe ser un número"@),
                    Some(b) => parse_spec(OptionsView { bitrate: b, ..o }, args, j),
                },
            }
        } else if flag == "-l"@ || flag == "--list"@ {
            parse_spec(OptionsView { list: true, ..o }, args, i + 1)
        } else if flag == "-n"@ || flag == "--limit"@ {
            match val {
                None => Err(missing("--limit"@)),
                Some((v, j)) => match parse_usize_spec(v) {
                    None => Err("El valor de --limit debe ser un número"@),
                    Some(n) => parse_spec(OptionsView { limit: Some(n), ..o }, args, j),
                },
            }
        } else if flag == "-h"@ || flag == "--help"@ {
            Ok(None)
        } else if flag.len() > 1 && flag[0] == '-' {
            Err("Opción desconocida: "@ + flag)
        } else {
            parse_spec(OptionsView { inputs: o.inputs.push(arg), ..o }, args, i + 1)
        }
    }
}

fn is_flag(f: &Vec<char>, short: &str, long: &str) -> (r: bool)
    ensures
        r == (f@ == short@ || f@ == long@),
{
    same_chars(f.as_slice(), chars_of(short).as_slice()) || same_chars(f.as_slice(), chars_of(long).as_slice())
}

fn missing_text(name: &str) -> (m: String)
    ensures
        m@ == missing(name@),
{
    let mut m = String::from_str("Falta el valor de ");
    m.append(name);
    m
}

fn parse_u32(s: &str) -> (r: Option<u32>)
    ensures
        r == parse_u32_spec(s@),
{
    match parse_u64(chars_of(s).as_slice()) {
        Some(v) => if v <= u32::MAX as u64 { Some(v as u32) } else { None },
        None => None,
    }
}

fn parse_usize(s: &str) -> (r: Option<usize>)
    ensures
        r == parse_usize_spec(s@),
{
    match parse_u64(chars_of(s).as_slice()) {
        Some(v) => if v as u128 <= usize::MAX as u128 { Some(v as usize) } else { None },
        None => None,
    }
}

/// Reads the command line (the arguments after the program's name); `Ok(None)` asks for the
/// help text.
pub fn parse_args(args: &Vec<String>) -> (r: Result<Option<Options>, String>)
    ensures
        ({
            let av = Seq::new(args@.len(), |i: int| args@[i]@);
            match parse_spec(default_options(), av, 0) {
                Ok(Some(v)) => r matches Ok(Some(o)) && o@ == v,
                Ok(None) => r matches Ok(None),
                Err(e) => r matches Err(m) && m@ == e,
            }
        }),
{
    let ghost av = Seq::new(args@.len(), |i: int| args@[i]@);
    let mut o = Options {
        quality: String::from_str("1080"),
        output: None,
        dir: String::from_str("."),
        format: String::from_str("mp4"),
        bitrate: 0,
        list: false,
        limit: None,
        inputs: Vec::new(),
    };
    proof {
        assert(o@.inputs =~= Seq::<Seq<char>>::empty());
        assert(o@ == default_options());
    }
    let mut i: usize = 0;
    while i < args.len()
        invariant
            i <= args.len(),
            av == Seq::new(args@.len(), |i: int| args@[i]@),
            parse_spec(default_options(), av, 0) == parse_spec(o@, av, i as int),
        decreases args.len() - i,
    {
        let arg = chars_of(args[i].as_str());
        let ghost fl = flag_of(av[i as int]);
        let (flag, inline): (Vec<char>, Option<String>) = match split_once_char(arg.as_slice(), '=') {
            Some((f, v)) => {
                if starts_with(f.as_slice(), chars_of("--").as_slice()) {
                    (f, Some(string_of(v.as_slice())))
                } else {
                    (arg.clone(), None)
                }
            },
            None => (arg.clone(), None),
        };
        assert(flag@ == fl.0);
        assert(opt_seq(inline) == fl.1);
        let val: Option<(String, usize)> = match inline {
            Some(v) => Some((v, i + 1)),
            None => if i + 1 < args.len() { Some((args[i + 1].clone(), i + 2)) } else { None },
        };
        let ghost vv: Option<(Seq<char>, int)> = match &val {
            Some((v, j)) => Some((v@, *j as int)),
            None => None,
        };
        assert(vv == match fl.1 {
            Some(v) => Some((v, i + 1)),
            None => if i + 1 < av.len() { Some((av[i + 1], i + 2)) } else { None::<(Seq<char>, int)> },
        });
        if is_flag(&flag, "-q", "--quality") {
            match val {
                None => { return Err(missing_text("--quality")); },
                Some((v, j)) => { o.quality = v; i = j; },
            }
        } else if is_flag(&flag, "-o", "--output") {
            match val {
                None => { return Err(missing_text("--output")); },
                Some((v, j)) => { o.output = Some(v); i = j; },
            }
        } else if is_flag(&flag, "-d", "--dir") {
            match val {
                None => { return Err(missing_text("--dir")); },
                Some((v, j)) => { o.dir = v; i = j; },
            }
        } else if is_flag(&flag, "-a", "--audio") {
            o.format = String::from_str("m4a");
            i = i + 1;
        } else if is_flag(&flag, "-f", "--format") {
            match val {
                None => { return Err(missing_text("--format")); },
                Some((v, j)) => { o.format = to_lowercase(v.as_str()); i = j; },
            }
        } else if is_flag(&flag, "-b", "--bitrate") {
            match val {
                None => { return Err(missing_text("--bitrate")); },
                Some((v, j)) => match parse_u32(v.as_str()) {
                    None => { return Err(String::from_str("El valor de --bitrate debe ser un número")); },
                    Some(b) => { o.bitrate = b; i = j; },
                },
            }
        } else if is_flag(&flag, "-l", "--list") {
            o.list = true;
            i = i + 1;
        } else if is_flag(&flag, "-n", "--limit") {
            match val {
                None => { return Err(missing_text("--limit")); },
                Some((v, j)) => match parse_usize(v.as_str()) {
                    None => { return Err(String::from_str("El valor de --limit debe ser un número")); },
                    Some(n) => { o.limit = Some(n); i = j; },
                },
            }
        } else if is_flag(&flag, "-h", "--help") {
            return Ok(None);
        } else if flag.len() > 1 && flag[0] == '-' {
            let mut m = String::from_str("Opción desconocida: ");
            m.append(string_of(flag.as_slice()).as_str());
            return Err(m);
        } else {
            let ghost before = o@.inputs;
            o.inputs.push(args[i].clone());
            assert(o@.inputs =~= before.push(av[i as int]));
            i = i + 1;
        }
    }
    Ok(Some(o))
}

/// The container a `--format` value asks for, and whether only the audio is wanted (all
/// but "mp4").
pub open spec fn format_spec(format: Seq<char>, bitrate: u32) -> Option<(Output, bool)> {
    let audio_only = format != "mp4"@;
    if format == "mp4"@ || format == "m4a"@ {
        Some((Output::Mp4, audio_only))
    } else if format == "aac"@ {
        Some((Output::Adts, audio_only))
    } else if format == "wav"@ {
        Some((Output::Wav, audio_only))
    } else if format == "flac"@ {
        Some((Output::Flac, audio_only))
    } else if format == "mp3"@ {
        Some((Output::Mp3(bitrate), audio_only))
    } else {
        None
    }
}

/// The output of a `--format` value (see `format_spec`); an unknown one is an error.
pub fn format_output(format: &str, bitrate: u32) -> (r: Result<(Output, bool), String>)
    ensures
        match format_spec(format@, bitrate) {
            Some(p) => r == Ok::<(Output, bool), String>(p),
            None => r matches Err(m) && m@ == "Formato no soportado: \""@ + format@
                + "\" (usa mp4, mp3, flac, wav, m4a o aac)"@,
        },
{
    let f = chars_of(format);
    let audio_only = !same_str(f.as_slice(), "mp4");
    if same_str(f.as_slice(), "mp4") || same_str(f.as_slice(), "m4a") {
        Ok((Output::Mp4, audio_only))
    } else if same_str(f.as_slice(), "aac") {
        Ok((Output::Adts, audio_only))
    } else if same_str(f.as_slice(), "wav") {
        Ok((Output::Wav, audio_only))
    } else if same_str(f.as_slice(), "flac") {
        Ok((Output::Flac, audio_only))
    } else if same_str(f.as_slice(), "mp3") {
        Ok((Output::Mp3(bitrate), audio_only))
    } else {
        let mut m = String::from_str("Formato no soportado: \"");
        m.append(format);
        m.append("\" (usa mp4, mp3, flac, wav, m4a o aac)");
        Err(m)
    }
}

/// The highest video height a `--quality` value asks for: "best" is no limit; otherwise a
/// positive number.
pub fn max_height_of(quality: &str) -> (r: Result<u32, String>)
    ensures
        quality@ == "best"@ ==> r == Ok::<u32, String>(u32::MAX),
        quality@ != "best"@ ==> match parse_u32_spec(quality@) {
            Some(h) => if h > 0 {
                r == Ok::<u32, String>(h)
            } else {
                r matches Err(m) && m@ == "Calidad no válida: \""@ + quality@ + "\""@
            },
            None => r matches Err(m) && m@ == "Calidad no válida: \""@ + quality@ + "\""@,
        },
{
    let q = chars_of(quality);
    if same_str(q.as_slice(), "best") {
        return Ok(u32::MAX);
    }
    match parse_u32(quality) {
        Some(h) => if h > 0 {
            return Ok(h);
        },
        None => {},
    }
    let mut m = String::from_str("Calidad no válida: \"");
    m.append(quality);
    m.append("\"");
    Err(m)
}

/// The output of a Spotify song: music only, so the default video MP4 becomes M4A.
pub fn song_output(format: &str, bitrate: u32) -> (r: Result<Output, String>)
    ensures
        format@ == "mp4"@ ==> r == Ok::<Output, String>(Output::Mp4),
        format@ != "mp4"@ ==> match format_spec(format@, bitrate) {
            Some(p) => r == Ok::<Output, String>(p.0),
            None => r is Err,
        },
{
    if same_str(chars_of(format).as_slice(), "mp4") {
        return Ok(Output::Mp4);
    }
    match format_output(format, bitrate) {
        Ok(p) => Ok(p.0),
        Err(e) => Err(e),
    }
}

/// How many songs of a list to fetch: all of them, or the first `limit`.
pub fn songs_to_fetch(count: usize, limit: Option<usize>) -> (n: usize)
    ensures
        n == match limit {
            Some(l) => if l < count { l } else { count },
            None => count,
        },
{
    match limit {
        Some(l) => if l < count { l } else { count },
        None => count,
    }
}

} // verus!
