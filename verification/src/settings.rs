//! User settings: the converters that turn other files into dataset files,
//! and the choice of a converter for a file that is to be imported.

use vstd::prelude::*;
use vstd::string::{StrSliceExecFns, StringExecFns};
use crate::named::texts;

verus! {

/// One converter: a script and the file extensions it is meant for.
#[derive(Clone, Debug, PartialEq, Eq)]
pub struct ConversionScriptSetting {
    pub name: String,
    pub script_path: String,
    /// Extensions with their dot, such as `.log`.
    pub extensions: Vec<String>,
}

/// What the user has configured.
#[derive(Clone, Debug, PartialEq, Eq)]
pub struct UserSettings {
    /// The interpreter that runs the scripts.
    pub python_path: String,
    pub conversion_scripts: Vec<ConversionScriptSetting>,
}

/// What to do with a file that is to be imported.
#[derive(Clone, Debug, PartialEq, Eq)]
pub enum ImportPlan {
    /// The file is a dataset file: load it.
    Load,
    /// No converter is configured for the extension, given with its dot.
    NoScript(String),
    /// Run the one converter that fits, given by its place in the settings.
    Run(usize),
    /// Several converters fit: ask which one to run.
    Ask(Vec<usize>),
}

/// What `str::to_lowercase` makes of `text`: its lowercase equivalent.
pub uninterp spec fn lowercase(text: Seq<char>) -> Seq<char>;

/// What `str::trim` leaves of `text`: the text without leading and trailing
/// whitespace.
pub uninterp spec fn trimmed(text: Seq<char>) -> Seq<char>;

/// Calls `str::to_lowercase`. The contract only gives the result its name.
#[verifier::external_body]
fn to_lower(text: &str) -> (out: String)
    ensures
        out@ == lowercase(text@),
{
    text.to_lowercase()
}

/// Calls `str::trim`. The contract only gives the result its name.
#[verifier::external_body]
fn trim_text<'a>(text: &'a str) -> (out: &'a str)
    ensures
        out@ == trimmed(text@),
{
    text.trim()
}

/// `text` ends with `tail`.
pub open spec fn ends_with(text: Seq<char>, tail: Seq<char>) -> bool {
    tail.len() <= text.len() && text.skip(text.len() - tail.len()) == tail
}

/// Whether `text` ends with `tail`.
pub fn text_ends_with(text: &str, tail: &str) -> (r: bool)
    ensures
        r == ends_with(text@, tail@),
{
    let n: usize = text.unicode_len();
    let m: usize = tail.unicode_len();
    if m > n {
        return false;
    }
    let shift: usize = n - m;
    let mut k: usize = 0;
    while k < m
        invariant
            n == text@.len(),
            m == tail@.len(),
            shift == n - m,
            0 <= k <= m,
            forall|j: int| 0 <= j < k ==> text@[shift + j] == tail@[j],
        decreases m - k,
    {
        if text.get_char(shift + k) != tail.get_char(k) {
            proof {
                assert(text@.skip(shift as int)[k as int] != tail@[k as int]);
            }
            return false;
        }
        k = k + 1;
    }
    proof {
        assert(text@.skip(shift as int) =~= tail@);
    }
    true
}

/// The path names a dataset file: in lowercase, it ends with `.json`.
pub open spec fn names_dataset(path: Seq<char>) -> bool {
    ends_with(lowercase(path), ".json"@)
}

/// Whether a path names a dataset file.
pub fn is_dataset_path(path: &str) -> (r: bool)
    ensures
        r == names_dataset(path@),
{
    let lower = to_lower(path);
    text_ends_with(lower.as_str(), ".json")
}

/// An extension in lowercase behind a dot; no extension stays none.
pub open spec fn dotted(extension: Seq<char>) -> Seq<char> {
    if lowercase(extension).len() == 0 {
        Seq::empty()
    } else {
        "."@ + lowercase(extension)
    }
}

/// Puts an extension in lowercase behind a dot.
pub fn dotted_extension(extension: &str) -> (out: String)
    ensures
        out@ == dotted(extension@),
{
    let lower = to_lower(extension);
    if lower.as_str().unicode_len() == 0 {
        String::new()
    } else {
        "."
            .to_owned().concat(lower.as_str())
    }
}

/// The converter is meant for the extension `dotted`: one of its extensions
/// is, in lowercase, that extension.
pub open spec fn handles(script: ConversionScriptSetting, dotted: Seq<char>) -> bool {
    exists|k: int|
        0 <= k < script.extensions@.len() && lowercase(#[trigger] script.extensions@[k]@) == dotted
}

/// The places of the converters that are meant for the extension, ascending.
pub open spec fn candidates(scripts: Seq<ConversionScriptSetting>, dotted: Seq<char>) -> Seq<usize>
    decreases scripts.len(),
{
    if scripts.len() == 0 {
        Seq::empty()
    } else if handles(scripts.last(), dotted) {
        candidates(scripts.drop_last(), dotted).push((scripts.len() - 1) as usize)
    } else {
        candidates(scripts.drop_last(), dotted)
    }
}

/// Whether a converter is meant for an extension.
pub fn script_handles(script: &ConversionScriptSetting, dotted: &str) -> (r: bool)
    ensures
        r == handles(*script, dotted@),
{
    let mut k: usize = 0;
    while k < script.extensions.len()
        invariant
            0 <= k <= script.extensions.len(),
            forall|j: int| 0 <= j < k ==> lowercase(#[trigger] script.extensions@[j]@) != dotted@,
        decreases script.extensions.len() - k,
    {
        let lower = to_lower(script.extensions[k].as_str());
        if crate::text::same_text(lower.as_str(), dotted) {
            return true;
        }
        k = k + 1;
    }
    false
}

/// The places of the converters that are meant for an extension.
pub fn matching_scripts(scripts: &Vec<ConversionScriptSetting>, dotted: &str) -> (out: Vec<usize>)
    ensures
        out@ == candidates(scripts@, dotted@),
{
    let mut out: Vec<usize> = Vec::new();
    let mut k: usize = 0;
    proof {
        assert(scripts@.take(0) =~= Seq::<ConversionScriptSetting>::empty());
    }
    while k < scripts.len()
        invariant
            0 <= k <= scripts.len(),
            out@ == candidates(scripts@.take(k as int), dotted@),
        decreases scripts.len() - k,
    {
        proof {
            assert(scripts@.take(k + 1).drop_last() =~= scripts@.take(k as int));
            assert(scripts@.take(k + 1).last() == scripts@[k as int]);
        }
        if script_handles(&scripts[k], dotted) {
            out.push(k);
        }
        k = k + 1;
    }
    proof {
        assert(scripts@.take(scripts.len() as int) =~= scripts@);
    }
    out
}

/// The plan for a list of candidates and an extension: none gives
/// `NoScript`, one is run, several are asked about.
pub open spec fn plan_for(found: Seq<usize>, dotted: Seq<char>, plan: ImportPlan) -> bool {
    match plan {
        ImportPlan::Load => false,
        ImportPlan::NoScript(ext) => found.len() == 0 && ext@ == dotted,
        ImportPlan::Run(at) => found.len() == 1 && at == found[0],
        ImportPlan::Ask(list) => found.len() > 1 && list@ == found,
    }
}

/// `plan` is the plan for importing the file `path` with the extension
/// `extension`: a dataset file is loaded, any other file goes to the
/// converters meant for its extension.
pub open spec fn is_plan_of(plan: ImportPlan, settings: UserSettings, path: Seq<char>, extension: Seq<char>) -> bool {
    if names_dataset(path) {
        plan is Load
    } else {
        plan_for(candidates(settings.conversion_scripts@, dotted(extension)), dotted(extension), plan)
    }
}

/// Decides what to do with a list of candidates.
pub fn plan_conversion(found: Vec<usize>, dotted: String) -> (plan: ImportPlan)
    ensures
        plan_for(found@, dotted@, plan),
{
    if found.len() == 0 {
        ImportPlan::NoScript(dotted)
    } else if found.len() == 1 {
        ImportPlan::Run(found[0])
    } else {
        ImportPlan::Ask(found)
    }
}

/// Decides what to do with a file that is to be imported. `extension` is the
/// file's extension without its dot, empty if it has none.
pub fn plan_import(settings: &UserSettings, path: &str, extension: &str) -> (plan: ImportPlan)
    ensures
        is_plan_of(plan, *settings, path@, extension@),
{
    if is_dataset_path(path) {
        ImportPlan::Load
    } else {
        let dotted = dotted_extension(extension);
        let found = matching_scripts(&settings.conversion_scripts, dotted.as_str());
        plan_conversion(found, dotted)
    }
}

/// The command line of a conversion, as it is shown: interpreter, script and
/// file, a space between each two.
pub open spec fn command_text(python: Seq<char>, script: Seq<char>, file: Seq<char>) -> Seq<char> {
    python + " "@ + script + " "@ + file
}

/// The command line of a conversion, as it is shown.
pub fn conversion_command(python_path: &str, script_path: &str, file_path: &str) -> (out: String)
    ensures
        out@ == command_text(python_path@, script_path@, file_path@),
{
    python_path.to_owned().concat(" ").concat(script_path).concat(" ").concat(file_path)
}

/// The fields of a comma-separated text: one more than it has commas.
pub open spec fn fields(text: Seq<char>) -> Seq<Seq<char>>
    decreases text.len(),
{
    if text.len() == 0 {
        seq![Seq::empty()]
    } else if text.last() == ',' {
        fields(text.drop_last()).push(Seq::empty())
    } else {
        let f = fields(text.drop_last());
        f.drop_last().push(f.last().push(text.last()))
    }
}

/// The extension that a field stands for: the field trimmed and in
/// lowercase, behind a dot unless it starts with one. An empty field stands
/// for none.
pub open spec fn extension_of(field: Seq<char>) -> Option<Seq<char>> {
    let x = lowercase(trimmed(field));
    if x.len() == 0 {
        None
    } else if x[0] == '.' {
        Some(x)
    } else {
        Some("."@ + x)
    }
}

/// The extensions that a list of fields stands for, in the fields' order.
pub open spec fn extensions_of(list: Seq<Seq<char>>) -> Seq<Seq<char>>
    decreases list.len(),
{
    if list.len() == 0 {
        Seq::empty()
    } else {
        match extension_of(list.last()) {
            Some(x) => extensions_of(list.drop_last()).push(x),
            None => extensions_of(list.drop_last()),
        }
    }
}

/// Reads one field of an extension list.
pub fn read_extension(field: &str) -> (out: Option<String>)
    ensures
        crate::event::text_of(out) == extension_of(field@),
{
    let lower = to_lower(trim_text(field));
    if lower.as_str().unicode_len() == 0 {
        None
    } else if lower.as_str().get_char(0) == '.' {
        Some(lower)
    } else {
        Some(".".to_owned().concat(lower.as_str()))
    }
}

/// Reads a comma-separated list of extensions, as the user types it.
pub fn parse_extensions(text: &str) -> (out: Vec<String>)
    ensures
        texts(out@) == extensions_of(fields(text@)),
{
    let n: usize = text.unicode_len();
    let mut out: Vec<String> = Vec::new();
    let mut start: usize = 0;
    let mut i: usize = 0;
    let ghost mut done: Seq<Seq<char>> = Seq::empty();
    proof {
        assert(text@.take(0) =~= Seq::<char>::empty());
        assert(text@.subrange(0, 0) =~= Seq::<char>::empty());
        assert(done.push(Seq::<char>::empty()) =~= seq![Seq::<char>::empty()]);
        assert(texts(out@) =~= Seq::<Seq<char>>::empty());
    }
    while i < n
        invariant
            n == text@.len(),
            0 <= start <= i <= n,
            fields(text@.take(i as int)) == done.push(text@.subrange(start as int, i as int)),
            texts(out@) == extensions_of(done),
        decreases n - i,
    {
        let c: char = text.get_char(i);
        let ghost piece = text@.subrange(start as int, i as int);
        proof {
            assert(text@.take(i + 1).drop_last() =~= text@.take(i as int));
            assert(text@.take(i + 1).last() == c);
            assert(done.push(piece).drop_last() =~= done);
            assert(done.push(piece).last() == piece);
        }
        if c == ',' {
            let field = text.substring_char(start, i);
            let ghost before = texts(out@);
            match read_extension(field) {
                Some(x) => {
                    out.push(x);
                    proof {
                        assert(texts(out@) =~= before.push(x@));
                    }
                },
                None => {},
            }
            proof {
                assert(text@.subrange(i + 1, i + 1) =~= Seq::<char>::empty());
                done = done.push(piece);
            }
            start = i + 1;
        } else {
            proof {
                assert(piece.push(c) =~= text@.subrange(start as int, i + 1));
            }
        }
        i = i + 1;
    }
    let field = text.substring_char(start, n);
    let ghost piece = text@.subrange(start as int, n as int);
    let ghost before = texts(out@);
    proof {
        assert(text@.take(n as int) =~= text@);
        assert(done.push(piece).drop_last() =~= done);
        assert(done.push(piece).last() == piece);
    }
    match read_extension(field) {
        Some(x) => {
            out.push(x);
            proof {
                assert(texts(out@) =~= before.push(x@));
            }
        },
        None => {},
    }
    out
}

impl Default for UserSettings {
    /// The settings of a fresh installation: `python3` as the interpreter and
    /// one converter, for `.log` and `.txt` files.
    fn default() -> (settings: UserSettings)
        ensures
            settings.python_path@ == "python3"@,
            settings.conversion_scripts@.len() == 1,
            settings.conversion_scripts@[0].name@ == "Default Conversion"@,
            settings.conversion_scripts@[0].script_path@ == "scripts/convert.py"@,
            texts(settings.conversion_scripts@[0].extensions@) == seq![".log"@, ".txt"@],
    {
        let mut extensions: Vec<String> = Vec::new();
        extensions.push(".log".to_owned());
        extensions.push(".txt".to_owned());
        let mut scripts: Vec<ConversionScriptSetting> = Vec::new();
        scripts.push(
            ConversionScriptSetting {
                name: "Default Conversion".to_owned(),
                script_path: "scripts/convert.py".to_owned(),
                extensions,
            },
        );
        proof {
            assert(texts(scripts@[0].extensions@) =~= seq![".log"@, ".txt"@]);
        }
        UserSettings { python_path: "python3".to_owned(), conversion_scripts: scripts }
    }
}

} // verus!
