//! The configuration file: its contents, what they mean, and where it lives.

use vstd::prelude::*;
use vstd::string::*;
use vstd::utf8::*;
use crate::text::{chars_of, decimal, decimal_text, hex, hex_digit, hex_text, same_text, text_of};

verus! {

/// One destination: a spreadsheet, and which windows count as work for it.
#[derive(Clone, Debug, PartialEq)]
pub struct SheetConfig {
    pub sheet_key: String,
    pub regex: String,
}

/// What the configuration file says. `sheet_key` and `regex` name a single destination, `sheets`
/// any number of them.
#[derive(Clone, Debug)]
pub struct FileConfig {
    pub sheet_key: Option<String>,
    pub regex: Option<String>,
    pub sheets: Vec<SheetConfig>,
}

/// A configuration as texts: destinations are pairs of sheet key and regex.
#[verifier::ext_equal]
pub struct ConfigModel {
    pub sheet_key: Option<Seq<char>>,
    pub regex: Option<Seq<char>>,
    pub sheets: Seq<(Seq<char>, Seq<char>)>,
}

impl View for SheetConfig {
    type V = (Seq<char>, Seq<char>);

    open spec fn view(&self) -> (Seq<char>, Seq<char>) {
        (self.sheet_key@, self.regex@)
    }
}

/// The text of a field that may be missing.
pub open spec fn field_text(field: Option<String>) -> Option<Seq<char>> {
    match field {
        Some(s) => Some(s@),
        None => None,
    }
}

impl View for FileConfig {
    type V = ConfigModel;

    open spec fn view(&self) -> ConfigModel {
        ConfigModel {
            sheet_key: field_text(self.sheet_key),
            regex: field_text(self.regex),
            sheets: Seq::new(self.sheets@.len(), |i: int| self.sheets@[i]@),
        }
    }
}

/// The destinations of a configuration: its list, or, where that is empty, the single one.
pub open spec fn destinations(c: ConfigModel) -> Seq<(Seq<char>, Seq<char>)> {
    if c.sheets.len() == 0 {
        match (c.sheet_key, c.regex) {
            (Some(sheet_key), Some(regex)) => seq![(sheet_key, regex)],
            _ => c.sheets,
        }
    } else {
        c.sheets
    }
}

/// The configuration with its destinations in the list, and the first of them, if any, in the
/// single fields.
pub open spec fn normalized(c: ConfigModel) -> ConfigModel {
    let sheets = destinations(c);
    if sheets.len() == 0 {
        ConfigModel { sheet_key: None, regex: None, sheets }
    } else {
        ConfigModel { sheet_key: Some(sheets[0].0), regex: Some(sheets[0].1), sheets }
    }
}

/// Whether one of the values that a fresh configuration file is filled with is still there.
pub open spec fn placeholder(c: ConfigModel) -> bool {
    if c.sheets.len() > 0 {
        exists|i: int|
            0 <= i < c.sheets.len() && ((#[trigger] c.sheets[i]).0 == "your-sheet-key"@
                || c.sheets[i].1 == "your-work-regex"@)
    } else {
        c.sheet_key == Some("your-sheet-key"@) || c.regex == Some("your-work-regex"@)
    }
}

/// The configuration with one destination.
pub open spec fn single(sheet_key: Seq<char>, regex: Seq<char>) -> ConfigModel {
    ConfigModel {
        sheet_key: Some(sheet_key),
        regex: Some(regex),
        sheets: seq![(sheet_key, regex)],
    }
}

impl FileConfig {
    /// Brings the destinations into the list and the first of them into the single fields.
    pub fn normalize(self) -> (r: FileConfig)
        ensures
            r@ == normalized(self@),
    {
        let ghost before = self@;
        let FileConfig { sheet_key, regex, sheets } = self;
        let mut sheets: Vec<SheetConfig> = sheets;
        if sheets.len() == 0 {
            if let (Some(sk), Some(rx)) = (sheet_key, regex) {
                sheets.push(SheetConfig { sheet_key: sk, regex: rx });
            }
        }
        let ghost listed = Seq::new(sheets@.len(), |i: int| sheets@[i]@);
        assert(listed =~= destinations(before));
        if sheets.len() == 0 {
            let r = FileConfig { sheet_key: None, regex: None, sheets };
            assert(r@ =~= normalized(before));
            r
        } else {
            let sheet_key: Option<String> = Some(sheets[0].sheet_key.clone());
            let regex: Option<String> = Some(sheets[0].regex.clone());
            let r = FileConfig { sheet_key, regex, sheets };
            assert(r@.sheets =~= listed);
            assert(listed[0] == sheets@[0]@);
            assert(r@ =~= normalized(before));
            r
        }
    }

    /// A configuration with one destination.
    pub fn single(sheet_key: &str, regex: &str) -> (r: FileConfig)
        ensures
            r@ == single(sheet_key@, regex@),
    {
        let mut sheets: Vec<SheetConfig> = Vec::new();
        sheets.push(SheetConfig { sheet_key: sheet_key.to_owned(), regex: regex.to_owned() });
        let r = FileConfig {
            sheet_key: Some(sheet_key.to_owned()),
            regex: Some(regex.to_owned()),
            sheets,
        };
        assert(r@ =~= single(sheet_key@, regex@));
        r
    }
}

/// Whether the configuration still holds a value that a fresh file is filled with.
pub fn is_placeholder(cfg: &FileConfig) -> (r: bool)
    ensures
        r == placeholder(cfg@),
{
    if cfg.sheets.len() > 0 {
        let mut i: usize = 0;
        while i < cfg.sheets.len()
            invariant
                i <= cfg.sheets.len(),
                forall|j: int|
                    0 <= j < i ==> (#[trigger] cfg@.sheets[j]).0 != "your-sheet-key"@
                        && cfg@.sheets[j].1 != "your-work-regex"@,
            decreases cfg.sheets.len() - i,
        {
            assert(cfg@.sheets[i as int] == cfg.sheets@[i as int]@);
            if same_text(cfg.sheets[i].sheet_key.as_str(), "your-sheet-key") || same_text(
                cfg.sheets[i].regex.as_str(),
                "your-work-regex",
            ) {
                return true;
            }
            i += 1;
        }
        return false;
    }
    let key_left: bool = match &cfg.sheet_key {
        Some(sk) => same_text(sk.as_str(), "your-sheet-key"),
        None => false,
    };
    let regex_left: bool = match &cfg.regex {
        Some(rx) => same_text(rx.as_str(), "your-work-regex"),
        None => false,
    };
    key_left || regex_left
}

/// Why the configuration cannot be used, or `None` if it can.
pub fn config_validation_error(cfg: &FileConfig) -> (r: Option<String>)
    ensures
        match r {
            Some(reason) => cfg@.sheets.len() == 0 && reason@ == "no sheets configured"@,
            None => cfg@.sheets.len() > 0,
        },
{
    if cfg.sheets.len() == 0 {
        return Some("no sheets configured".to_owned());
    }
    None
}

/// What becomes of the configuration file at start.
pub enum LoadOutcome {
    /// There is no file: one with this configuration is written, for the user to fill in.
    CreateDefault(FileConfig),
    /// The file was never filled in.
    Placeholder,
    /// The file cannot be used, for this reason.
    Invalid(String),
    /// The destinations to sync to.
    Ready(FileConfig),
}

/// What to do with the configuration file that was found, if one was.
pub fn load_file_config(existing: Option<FileConfig>) -> (r: LoadOutcome)
    ensures
        match existing {
            None => r matches LoadOutcome::CreateDefault(cfg) && cfg@ == single(
                "your-sheet-key"@,
                "your-work-regex"@,
            ),
            Some(found) => {
                let cfg = normalized(found@);
                if placeholder(cfg) {
                    r is Placeholder
                } else if cfg.sheets.len() == 0 {
                    r matches LoadOutcome::Invalid(reason) && reason@ == "no sheets configured"@
                } else {
                    r matches LoadOutcome::Ready(ready) && ready@ == cfg
                }
            },
        },
{
    match existing {
        None => LoadOutcome::CreateDefault(FileConfig::single("your-sheet-key", "your-work-regex")),
        Some(found) => {
            let cfg: FileConfig = found.normalize();
            if is_placeholder(&cfg) {
                return LoadOutcome::Placeholder;
            }
            match config_validation_error(&cfg) {
                Some(reason) => LoadOutcome::Invalid(reason),
                None => LoadOutcome::Ready(cfg),
            }
        },
    }
}

/// What becomes of the configuration file when a destination is given on the command line.
pub enum CliOutcome {
    /// The file lists several destinations and is left alone: this is an error.
    MultipleSheets,
    /// The file already says the same.
    Keep,
    /// The file says something else: it is put aside and written anew.
    BackUpAndWrite(FileConfig),
    /// There is no file, or one that says the same but was never filled in: it is written.
    Write(FileConfig),
}

/// What to do with the configuration file, if there is one, when the command line names the
/// destination.
pub fn apply_cli_to_config(existing: Option<FileConfig>, sheet_key: &str, regex: &str) -> (r:
    CliOutcome)
    ensures
        match existing {
            None => r matches CliOutcome::Write(cfg) && cfg@ == single(sheet_key@, regex@),
            Some(found) => {
                let old_sheets = destinations(found@);
                if old_sheets == seq![(sheet_key@, regex@)] {
                    if placeholder(normalized(found@)) {
                        r matches CliOutcome::Write(cfg) && cfg@ == single(sheet_key@, regex@)
                    } else {
                        r is Keep
                    }
                } else if old_sheets.len() > 1 && !placeholder(normalized(found@)) {
                    r is MultipleSheets
                } else {
                    r matches CliOutcome::BackUpAndWrite(cfg) && cfg@ == single(sheet_key@, regex@)
                }
            },
        },
{
    match existing {
        None => CliOutcome::Write(FileConfig::single(sheet_key, regex)),
        Some(found) => {
            let cfg: FileConfig = found.normalize();
            let unfilled: bool = is_placeholder(&cfg);
            if cfg.sheets.len() == 1 {
                assert(cfg@.sheets[0] == cfg.sheets@[0]@);
                if same_text(cfg.sheets[0].sheet_key.as_str(), sheet_key) && same_text(
                    cfg.sheets[0].regex.as_str(),
                    regex,
                ) {
                    assert(cfg@.sheets =~= seq![(sheet_key@, regex@)]);
                    if unfilled {
                        return CliOutcome::Write(FileConfig::single(sheet_key, regex));
                    }
                    return CliOutcome::Keep;
                }
            }
            if cfg.sheets.len() > 1 && !unfilled {
                return CliOutcome::MultipleSheets;
            }
            CliOutcome::BackUpAndWrite(FileConfig::single(sheet_key, regex))
        },
    }
}

/// Normalizing a second time changes nothing.
pub proof fn law_normalized_once(c: ConfigModel)
    ensures
        normalized(normalized(c)) == normalized(c),
{
}

/// Normalizing keeps the destinations.
pub proof fn law_normalized_destinations(c: ConfigModel)
    ensures
        destinations(normalized(c)) == destinations(c),
        normalized(c).sheets == destinations(c),
{
}

/// A configuration with one destination is normalized as it stands, and is a placeholder only
/// where one of the two values is.
pub proof fn law_single(sheet_key: Seq<char>, regex: Seq<char>)
    ensures
        normalized(single(sheet_key, regex)) == single(sheet_key, regex),
        placeholder(single(sheet_key, regex)) <==> sheet_key == "your-sheet-key"@ || regex
            == "your-work-regex"@,
{
    let c = single(sheet_key, regex);
    assert(c.sheets[0] == (sheet_key, regex));
}

/// The directory of the configuration under the user's own configuration directory.
pub open spec fn config_dir_text(base: Seq<char>) -> Seq<char> {
    base + "/activitywatch/aw-work-sync"@
}

/// The directory that the configuration file lives in; `base` is the user's configuration
/// directory.
pub fn config_dir(base: &str) -> (r: String)
    ensures
        r@ == config_dir_text(base@),
        r@ == base@ + "/activitywatch/aw-work-sync"@,
{
    base.to_owned().concat("/activitywatch/aw-work-sync")
}

/// The configuration file; `base` is the user's configuration directory.
pub fn config_path(base: &str) -> (r: String)
    ensures
        r@ == config_dir_text(base@) + "/config.yaml"@,
        r@ == base@ + "/activitywatch/aw-work-sync"@ + "/config.yaml"@,
{
    config_dir(base).concat("/config.yaml")
}

/// The characters that stand for themselves in the name of a cache file.
pub open spec fn plain_char(c: char) -> bool {
    ('a' <= c && c <= 'z') || ('A' <= c && c <= 'Z') || ('0' <= c && c <= '9') || c == '-' || c
        == '_'
}

/// The part of a cache file's name that a sheet key is recognized by.
pub open spec fn readable_key(sheet_key: Seq<char>) -> Seq<char> {
    let plain = sheet_key.filter(|c: char| plain_char(c));
    if plain.len() == 0 {
        "hex"@
    } else {
        plain
    }
}

/// The name of the cache file for a host and a sheet key.
pub open spec fn cache_file_name(host: Seq<char>, sheet_key: Seq<char>) -> Seq<char> {
    "query_cache_"@ + host + "_"@ + readable_key(sheet_key) + "_"@ + hex(encode_utf8(sheet_key))
        + ".json"@
}

/// How many characters of a long name one directory takes.
pub const NAME_PART: usize = 100;

/// A long name as a row of directories, none of them longer than a file system allows.
pub open spec fn as_directories(name: Seq<char>) -> Seq<char>
    decreases name.len(),
{
    if name.len() <= NAME_PART {
        seq!['/'] + name
    } else {
        seq!['/'] + name.take(NAME_PART as int) + as_directories(name.skip(NAME_PART as int))
    }
}

/// The directory for what is kept of the answers under a regex, in the directory `dir`.
pub open spec fn cache_dir_text(dir: Seq<char>, regex: Seq<char>) -> Seq<char> {
    dir + "/cache"@ + as_directories(hex(encode_utf8(regex)))
}

/// The directory for what is kept of the answers under a regex.
pub fn cache_dir(dir: &str, regex: &str) -> (r: String)
    ensures
        r@ == cache_dir_text(dir@, regex@),
{
    let name: String = hex_text(regex.as_bytes());
    let v: Vec<char> = chars_of(name.as_str());
    let mut path: String = dir.to_owned();
    path.append("/cache");
    let ghost whole = path@ + as_directories(v@);
    let mut from: usize = 0;
    assert(v@.skip(0) =~= v@);
    while v.len() - from > NAME_PART
        invariant
            from <= v.len(),
            path@ + as_directories(v@.skip(from as int)) == whole,
        decreases v.len() - from,
    {
        let ghost before = path@;
        let ghost rest = v@.skip(from as int);
        path.push('/');
        path.append(text_of(&v, from, from + NAME_PART).as_str());
        assert(rest.take(NAME_PART as int) =~= v@.subrange(from as int, from + NAME_PART));
        assert(rest.skip(NAME_PART as int) =~= v@.skip(from + NAME_PART));
        assert(before + (seq!['/'] + rest.take(NAME_PART as int) + as_directories(
            v@.skip(from + NAME_PART),
        )) =~= path@ + as_directories(v@.skip(from + NAME_PART)));
        from += NAME_PART;
    }
    let ghost before = path@;
    let ghost rest = v@.skip(from as int);
    path.push('/');
    path.append(text_of(&v, from, v.len()).as_str());
    assert(rest =~= v@.subrange(from as int, v@.len() as int));
    assert(before + (seq!['/'] + rest) =~= path@);
    path
}

/// The cache file for a host, a sheet key and a regex, in the directory `dir`.
pub fn cache_path(dir: &str, host: &str, sheet_key: &str, regex: &str) -> (r: String)
    ensures
        r@ == cache_dir_text(dir@, regex@) + "/"@ + cache_file_name(host@, sheet_key@),
        r@ == cache_dir_text(dir@, regex@) + "/"@ + ("query_cache_"@ + host@ + "_"@ + readable_key(
            sheet_key@,
        ) + "_"@ + hex(encode_utf8(sheet_key@)) + ".json"@),
{
    let v: Vec<char> = chars_of(sheet_key);
    let mut plain: String = String::new();
    let mut i: usize = 0;
    let ghost keep = |c: char| plain_char(c);
    proof {
        reveal(Seq::filter);
        assert(plain@ =~= v@.take(0).filter(keep));
    }
    while i < v.len()
        invariant
            i <= v.len(),
            keep == (|c: char| plain_char(c)),
            plain@ == v@.take(i as int).filter(keep),
        decreases v.len() - i,
    {
        let c: char = v[i];
        proof {
            reveal(Seq::filter);
            assert(v@.take(i + 1).drop_last() =~= v@.take(i as int));
        }
        if ('a' <= c && c <= 'z') || ('A' <= c && c <= 'Z') || ('0' <= c && c <= '9') || c == '-' || c
            == '_' {
            plain.push(c);
        }
        i += 1;
    }
    assert(v@.take(v@.len() as int) =~= v@);
    let mut name: String = "query_cache_".to_owned();
    name.append(host);
    name.append("_");
    if plain.as_str().is_empty() {
        name.append("hex");
    } else {
        name.append(plain.as_str());
    }
    name.append("_");
    name.append(hex_text(sheet_key.as_bytes()).as_str());
    name.append(".json");
    let mut path: String = cache_dir(dir, regex);
    path.append("/");
    path.append(name.as_str());
    path
}

/// The `n`th backup of the file `base`.
pub fn backup_path(base: &str, n: u8) -> (r: String)
    ensures
        r@ == base@ + "."@ + decimal(n as nat),
{
    let mut path: String = base.to_owned();
    path.append(".");
    path.append(decimal_text(n as u64).as_str());
    path
}

/// One step of moving backups on. The file itself is number 0, its backups are 1 to 4.
#[derive(Clone, Copy, Debug, PartialEq, Eq, Structural)]
pub enum BackupStep {
    Remove(u8),
    Rename(u8, u8),
}

/// The files after one step; a file that is moved takes the place of what was there.
pub open spec fn after_step<C>(files: Map<u8, C>, step: BackupStep) -> Map<u8, C> {
    match step {
        BackupStep::Remove(n) => files.remove(n),
        BackupStep::Rename(from, to) => files.remove(from).insert(to, files[from]),
    }
}

/// The files after all steps.
pub open spec fn after_steps<C>(files: Map<u8, C>, steps: Seq<BackupStep>) -> Map<u8, C>
    decreases steps.len(),
{
    if steps.len() == 0 {
        files
    } else {
        after_step(after_steps(files, steps.drop_last()), steps.last())
    }
}

/// The steps that move each backup on by one and the file into the first place: the fourth backup,
/// if there is one, is dropped.
pub open spec fn rotation(first: bool, second: bool, third: bool, fourth: bool) -> Seq<BackupStep> {
    let none = Seq::<BackupStep>::empty();
    (if fourth {
        seq![BackupStep::Remove(4)]
    } else {
        none
    }) + (if third {
        seq![BackupStep::Rename(3, 4)]
    } else {
        none
    }) + (if second {
        seq![BackupStep::Rename(2, 3)]
    } else {
        none
    }) + (if first {
        seq![BackupStep::Rename(1, 2)]
    } else {
        none
    }) + seq![BackupStep::Rename(0, 1)]
}

/// How to put the file aside, given which of its four backups exist.
pub fn rotate_backups(first: bool, second: bool, third: bool, fourth: bool) -> (r: Vec<BackupStep>)
    ensures
        r@ == rotation(first, second, third, fourth),
{
    let mut steps: Vec<BackupStep> = Vec::new();
    if fourth {
        steps.push(BackupStep::Remove(4));
    }
    if third {
        steps.push(BackupStep::Rename(3, 4));
    }
    if second {
        steps.push(BackupStep::Rename(2, 3));
    }
    if first {
        steps.push(BackupStep::Rename(1, 2));
    }
    steps.push(BackupStep::Rename(0, 1));
    assert(steps@ =~= rotation(first, second, third, fourth));
    steps
}

/// Moving backups on: the file becomes the first backup, each of the first three moves on by one,
/// the fourth is gone, and no other file is touched.
pub proof fn law_rotation<C>(files: Map<u8, C>, first: bool, second: bool, third: bool, fourth: bool)
    requires
        files.contains_key(0),
        first == files.contains_key(1),
        second == files.contains_key(2),
        third == files.contains_key(3),
        fourth == files.contains_key(4),
    ensures
        ({
            let after = after_steps(files, rotation(first, second, third, fourth));
            &&& !after.contains_key(0)
            &&& forall|n: u8|
                n < 4 ==> {
                    let next = (n + 1) as u8;
                    &&& #[trigger] files.contains_key(n) <==> after.contains_key(next)
                    &&& files.contains_key(n) ==> after[next] == files[n]
                }
            &&& forall|n: u8|
                n > 4 ==> (#[trigger] files.contains_key(n) <==> after.contains_key(n)) && (
                files.contains_key(n) ==> after[n] == files[n])
        }),
{
    let none = Seq::<BackupStep>::empty();
    let s4 = if fourth {
        seq![BackupStep::Remove(4)]
    } else {
        none
    };
    let s3 = if third {
        seq![BackupStep::Rename(3, 4)]
    } else {
        none
    };
    let s2 = if second {
        seq![BackupStep::Rename(2, 3)]
    } else {
        none
    };
    let s1 = if first {
        seq![BackupStep::Rename(1, 2)]
    } else {
        none
    };
    let s0 = seq![BackupStep::Rename(0, 1)];
    lemma_steps_concat(files, none, s4);
    assert(none + s4 =~= s4);
    lemma_steps_concat(files, s4, s3);
    lemma_steps_concat(files, s4 + s3, s2);
    lemma_steps_concat(files, s4 + s3 + s2, s1);
    lemma_steps_concat(files, s4 + s3 + s2 + s1, s0);
}

proof fn lemma_steps_concat<C>(files: Map<u8, C>, a: Seq<BackupStep>, b: Seq<BackupStep>)
    requires
        b.len() <= 1,
    ensures
        after_steps(files, a + b) == (if b.len() == 0 {
            after_steps(files, a)
        } else {
            after_step(after_steps(files, a), b[0])
        }),
{
    if b.len() == 0 {
        assert(a + b =~= a);
    } else {
        assert((a + b).drop_last() =~= a);
    }
}

/// Different byte strings have different hexadecimal texts.
pub proof fn law_hex_injective(a: Seq<u8>, b: Seq<u8>)
    requires
        hex(a) == hex(b),
    ensures
        a == b,
{
    assert(hex(a).len() == 2 * a.len() && hex(b).len() == 2 * b.len());
    assert forall|i: int| 0 <= i < a.len() implies a[i] == b[i] by {
        let (e, o) = (2 * i, 2 * i + 1);
        assert(e / 2 == i && o / 2 == i && e % 2 == 0 && o % 2 == 1);
        assert(0 <= e < 2 * a.len() && 0 <= o < 2 * a.len());
        assert(hex(a)[e] == hex_digit(a[e / 2] / 16));
        assert(hex(b)[e] == hex_digit(b[e / 2] / 16));
        assert(hex(a)[o] == hex_digit(a[o / 2] % 16));
        assert(hex(b)[o] == hex_digit(b[o / 2] % 16));
        lemma_hex_digit(a[i] / 16);
        lemma_hex_digit(b[i] / 16);
        lemma_hex_digit(a[i] % 16);
        lemma_hex_digit(b[i] % 16);
    }
    assert(a =~= b);
}

proof fn lemma_hex_digit(d: u8)
    requires
        d < 16,
    ensures
        hex_digit(d) as u32 == (if d < 10 {
            48 + d
        } else {
            87 + d
        }),
        hex_digit(d) != '_',
{
}

/// Each host and sheet key has a cache file of its own name.
pub proof fn law_cache_file_name_injective(
    host1: Seq<char>,
    key1: Seq<char>,
    host2: Seq<char>,
    key2: Seq<char>,
)
    requires
        cache_file_name(host1, key1) == cache_file_name(host2, key2),
    ensures
        host1 == host2,
        key1 == key2,
{
    reveal_strlit("query_cache_");
    reveal_strlit("_");
    reveal_strlit(".json");
    let t = cache_file_name(host1, key1);
    let n = t.len() as int;
    let (h1, h2) = (hex(encode_utf8(key1)), hex(encode_utf8(key2)));
    assert forall|i: int| 0 <= i < h1.len() implies #[trigger] h1[i] != '_' by {
        lemma_hex_digit(encode_utf8(key1)[i / 2] / 16);
        lemma_hex_digit(encode_utf8(key1)[i / 2] % 16);
    }
    assert forall|i: int| 0 <= i < h2.len() implies #[trigger] h2[i] != '_' by {
        lemma_hex_digit(encode_utf8(key2)[i / 2] / 16);
        lemma_hex_digit(encode_utf8(key2)[i / 2] % 16);
    }
    assert(t[n - 6 - h1.len()] == '_');
    assert(cache_file_name(host2, key2)[n - 6 - h2.len()] == '_');
    if h1.len() < h2.len() {
        assert(t[n - 6 - h1.len()] == h2[h2.len() - h1.len() - 1]);
    }
    if h2.len() < h1.len() {
        assert(t[n - 6 - h2.len()] == h1[h1.len() - h2.len() - 1]);
    }
    assert(h1 =~= t.subrange(n - 5 - h1.len(), n - 5));
    assert(h2 =~= t.subrange(n - 5 - h1.len(), n - 5));
    law_hex_injective(encode_utf8(key1), encode_utf8(key2));
    encode_utf8_decode_utf8(key1);
    encode_utf8_decode_utf8(key2);
    let r = readable_key(key1).len();
    assert(host1 =~= t.subrange(12, n - 7 - h1.len() - r));
    assert(host2 =~= t.subrange(12, n - 7 - h1.len() - r));
}

/// A hexadecimal digit or a slash.
pub open spec fn directory_char(c: char) -> bool {
    c == '/' || ('0' <= c && c <= '9') || ('a' <= c && c <= 'f')
}

proof fn lemma_hex_chars(bytes: Seq<u8>)
    ensures
        forall|i: int|
            0 <= i < hex(bytes).len() ==> directory_char(#[trigger] hex(bytes)[i]) && hex(bytes)[i]
                != '/',
{
    assert forall|i: int| 0 <= i < hex(bytes).len() implies directory_char(#[trigger] hex(bytes)[i])
        && hex(bytes)[i] != '/' by {
        lemma_hex_digit(bytes[i / 2] / 16);
        lemma_hex_digit(bytes[i / 2] % 16);
    }
}

proof fn lemma_directories(name: Seq<char>)
    requires
        forall|i: int| 0 <= i < name.len() ==> directory_char(#[trigger] name[i]) && name[i] != '/',
    ensures
        forall|i: int|
            0 <= i < as_directories(name).len() ==> directory_char(
                #[trigger] as_directories(name)[i],
            ),
    decreases name.len(),
{
    let n = NAME_PART as int;
    let d = as_directories(name);
    if name.len() > n {
        let rest = name.skip(n);
        assert forall|i: int| 0 <= i < rest.len() implies directory_char(#[trigger] rest[i])
            && rest[i] != '/' by {
            assert(rest[i] == name[n + i]);
        }
        lemma_directories(rest);
        assert forall|i: int| 0 <= i < d.len() implies directory_char(#[trigger] d[i]) by {
            if 0 < i <= n {
                assert(d[i] == name[i - 1]);
            } else if i > n {
                assert(d[i] == as_directories(rest)[i - n - 1]);
            }
        }
    } else {
        assert forall|i: int| 0 <= i < d.len() implies directory_char(#[trigger] d[i]) by {
            if i > 0 {
                assert(d[i] == name[i - 1]);
            }
        }
    }
}

proof fn lemma_directories_injective(a: Seq<char>, b: Seq<char>)
    requires
        forall|i: int| 0 <= i < a.len() ==> #[trigger] a[i] != '/',
        forall|i: int| 0 <= i < b.len() ==> #[trigger] b[i] != '/',
        as_directories(a) == as_directories(b),
    ensures
        a == b,
    decreases a.len(),
{
    let n = NAME_PART as int;
    let (da, db) = (as_directories(a), as_directories(b));
    if a.len() <= n && b.len() <= n {
        assert(a =~= da.skip(1));
        assert(b =~= db.skip(1));
    } else if a.len() > n && b.len() > n {
        assert(a.take(n) =~= da.subrange(1, n + 1));
        assert(b.take(n) =~= db.subrange(1, n + 1));
        assert(as_directories(a.skip(n)) =~= da.skip(n + 1));
        assert(as_directories(b.skip(n)) =~= db.skip(n + 1));
        lemma_directories_injective(a.skip(n), b.skip(n));
        assert(a =~= a.take(n) + a.skip(n));
        assert(b =~= b.take(n) + b.skip(n));
    } else if a.len() > n {
        assert(as_directories(a.skip(n))[0] == '/');
        assert(da[n + 1] == '/');
        assert(db[n + 1] == b[n]);
    } else {
        assert(as_directories(b.skip(n))[0] == '/');
        assert(db[n + 1] == '/');
        assert(da[n + 1] == a[n]);
    }
}

/// Each host, sheet key and regex has a cache file of its own: what was answered under one regex is
/// never taken for another.
pub proof fn law_cache_path_injective(
    dir: Seq<char>,
    host1: Seq<char>,
    key1: Seq<char>,
    regex1: Seq<char>,
    host2: Seq<char>,
    key2: Seq<char>,
    regex2: Seq<char>,
)
    requires
        cache_dir_text(dir, regex1) + "/"@ + cache_file_name(host1, key1) == cache_dir_text(
            dir,
            regex2,
        ) + "/"@ + cache_file_name(host2, key2),
    ensures
        host1 == host2,
        key1 == key2,
        regex1 == regex2,
{
    reveal_strlit("/");
    reveal_strlit("/cache");
    reveal_strlit("query_cache_");
    let (h1, h2) = (hex(encode_utf8(regex1)), hex(encode_utf8(regex2)));
    lemma_hex_chars(encode_utf8(regex1));
    lemma_hex_chars(encode_utf8(regex2));
    lemma_directories(h1);
    lemma_directories(h2);
    let (d1, d2) = (as_directories(h1), as_directories(h2));
    let (n1, n2) = (cache_file_name(host1, key1), cache_file_name(host2, key2));
    let t = cache_dir_text(dir, regex1) + "/"@ + n1;
    let base = dir.len() as int + 6;
    assert(n1[0] == 'q' && n2[0] == 'q');
    assert(t[base + d1.len() + 1] == 'q');
    assert(t[base + d2.len() + 1] == 'q');
    if d1.len() < d2.len() {
        if d1.len() + 1 < d2.len() {
            assert(t[base + d1.len() + 1] == d2[d1.len() as int + 1]);
        } else {
            assert(t[base + d2.len()] == '/');
        }
    }
    if d2.len() < d1.len() {
        if d2.len() + 1 < d1.len() {
            assert(t[base + d2.len() + 1] == d1[d2.len() as int + 1]);
        } else {
            assert(t[base + d1.len()] == '/');
        }
    }
    assert(d1 =~= t.subrange(base, base + d1.len()));
    assert(d2 =~= t.subrange(base, base + d1.len()));
    assert(n1 =~= t.skip(base + d1.len() + 1));
    assert(n2 =~= t.skip(base + d1.len() + 1));
    lemma_directories_injective(h1, h2);
    law_hex_injective(encode_utf8(regex1), encode_utf8(regex2));
    encode_utf8_decode_utf8(regex1);
    encode_utf8_decode_utf8(regex2);
    law_cache_file_name_injective(host1, key1, host2, key2);
}

/// Whether the configuration says two things: it has a list and single fields that differ from the
/// first of the list. The list is what counts.
pub open spec fn conflicting(c: ConfigModel) -> bool {
    match (c.sheet_key, c.regex) {
        (Some(sheet_key), Some(regex)) => c.sheets.len() > 0 && (sheet_key, regex) != c.sheets[0],
        _ => false,
    }
}

/// Whether the single fields differ from the first of the list.
pub fn has_conflict(cfg: &FileConfig) -> (r: bool)
    ensures
        r == conflicting(cfg@),
{
    if cfg.sheets.len() == 0 {
        return false;
    }
    assert(cfg@.sheets[0] == cfg.sheets@[0]@);
    match (&cfg.sheet_key, &cfg.regex) {
        (Some(sheet_key), Some(regex)) => !same_text(
            sheet_key.as_str(),
            cfg.sheets[0].sheet_key.as_str(),
        ) || !same_text(regex.as_str(), cfg.sheets[0].regex.as_str()),
        _ => false,
    }
}

/// The destinations are those of the list, all of them and in order; where the list is empty they are
/// the one that the single fields name, if both are there, and otherwise none.
pub proof fn law_destinations(c: ConfigModel)
    ensures
        c.sheets.len() > 0 ==> destinations(c) == c.sheets,
        c.sheets.len() == 0 && c.sheet_key is Some && c.regex is Some ==> destinations(c) == seq![
            (c.sheet_key->0, c.regex->0),
        ],
        c.sheets.len() == 0 && (c.sheet_key is None || c.regex is None) ==> destinations(c).len()
            == 0,
{
}

/// A normalized configuration lists its destinations, and says the first of them in the single fields,
/// so that it does not contradict itself.
pub proof fn law_normalized_fields(c: ConfigModel)
    ensures
        normalized(c).sheets == destinations(c),
        destinations(c).len() > 0 ==> normalized(c).sheet_key == Some(destinations(c)[0].0)
            && normalized(c).regex == Some(destinations(c)[0].1),
        destinations(c).len() == 0 ==> normalized(c).sheet_key is None && normalized(c).regex is None,
        !conflicting(normalized(c)),
{
}

/// A configuration was filled in just when no destination has a value of a fresh file.
pub proof fn law_filled_in(c: ConfigModel)
    ensures
        !placeholder(normalized(c)) <==> forall|i: int|
            0 <= i < destinations(c).len() ==> (#[trigger] destinations(c)[i]).0
                != "your-sheet-key"@ && destinations(c)[i].1 != "your-work-regex"@,
{
}

/// A configuration that was written for one destination has just that one.
pub proof fn law_single_destination(sheet_key: Seq<char>, regex: Seq<char>)
    ensures
        destinations(single(sheet_key, regex)) == seq![(sheet_key, regex)],
        single(sheet_key, regex).sheet_key == Some(sheet_key),
        single(sheet_key, regex).regex == Some(regex),
        !conflicting(single(sheet_key, regex)),
{
}

/// Single fields and a list that begins with another destination contradict each other, and the list
/// is what counts.
pub proof fn law_conflict(c: ConfigModel)
    ensures
        conflicting(c) <==> c.sheets.len() > 0 && c.sheet_key is Some && c.regex is Some && (
        c.sheet_key->0 != c.sheets[0].0 || c.regex->0 != c.sheets[0].1),
        conflicting(c) ==> destinations(c) == c.sheets,
{
}

/// A sheet key of letters, digits, hyphens and underscores is recognized by itself, and one without any
/// of them by `hex`; what else a key holds is left out.
pub proof fn law_readable_key(sheet_key: Seq<char>)
    ensures
        (forall|i: int|
            0 <= i < sheet_key.len() ==> !plain_char(#[trigger] sheet_key[i])) ==> readable_key(
            sheet_key,
        ) == "hex"@,
        sheet_key.len() > 0 && (forall|i: int|
            0 <= i < sheet_key.len() ==> plain_char(#[trigger] sheet_key[i])) ==> readable_key(
            sheet_key,
        ) == sheet_key,
{
    if forall|i: int| 0 <= i < sheet_key.len() ==> !plain_char(#[trigger] sheet_key[i]) {
        lemma_none_plain(sheet_key);
    }
    if forall|i: int| 0 <= i < sheet_key.len() ==> plain_char(#[trigger] sheet_key[i]) {
        lemma_all_plain(sheet_key);
    }
}

proof fn lemma_none_plain(s: Seq<char>)
    requires
        forall|i: int| 0 <= i < s.len() ==> !plain_char(#[trigger] s[i]),
    ensures
        s.filter(|c: char| plain_char(c)).len() == 0,
    decreases s.len(),
{
    reveal(Seq::filter);
    if s.len() > 0 {
        let front = s.drop_last();
        assert forall|i: int| 0 <= i < front.len() implies !plain_char(#[trigger] front[i]) by {
            assert(front[i] == s[i]);
        }
        lemma_none_plain(front);
        assert(!plain_char(s[s.len() - 1]));
    }
}

proof fn lemma_all_plain(s: Seq<char>)
    requires
        forall|i: int| 0 <= i < s.len() ==> plain_char(#[trigger] s[i]),
    ensures
        s.filter(|c: char| plain_char(c)) == s,
    decreases s.len(),
{
    reveal(Seq::filter);
    if s.len() > 0 {
        let front = s.drop_last();
        assert forall|i: int| 0 <= i < front.len() implies plain_char(#[trigger] front[i]) by {
            assert(front[i] == s[i]);
        }
        lemma_all_plain(front);
        assert(plain_char(s[s.len() - 1]));
        assert(front.push(s.last()) =~= s);
    } else {
        assert(s.filter(|c: char| plain_char(c)) =~= s);
    }
}

/// A value of a fresh file is looked for in the list, if there is one, and otherwise in the single
/// fields.
pub proof fn law_placeholder(c: ConfigModel)
    ensures
        c.sheets.len() > 0 ==> (placeholder(c) <==> exists|i: int|
            0 <= i < c.sheets.len() && ((#[trigger] c.sheets[i]).0 == "your-sheet-key"@
                || c.sheets[i].1 == "your-work-regex"@)),
        c.sheets.len() == 0 ==> (placeholder(c) <==> c.sheet_key == Some("your-sheet-key"@)
            || c.regex == Some("your-work-regex"@)),
{
}

/// No directory of a long name is longer than a hundred characters: of any hundred and one characters
/// of the row of directories one is a slash.
pub proof fn law_short_directories(name: Seq<char>, p: int)
    requires
        0 <= p,
        p + 101 <= as_directories(name).len(),
    ensures
        exists|j: int| p <= j < p + 101 && #[trigger] as_directories(name)[j] == '/',
    decreases name.len(),
{
    let d = as_directories(name);
    if p == 0 {
        assert(d[0] == '/');
    } else {
        let rest = name.skip(100);
        let e = as_directories(rest);
        assert(d =~= seq!['/'] + name.take(100) + e);
        if p <= 101 {
            assert(e[0] == '/');
            assert(d[101] == '/');
        } else {
            law_short_directories(rest, p - 101);
            let j = choose|j: int| p - 101 <= j < p && #[trigger] e[j] == '/';
            assert(d[j + 101] == e[j]);
        }
    }
}

} // verus!
