//! MBZ shape & completeness.
//!
//! Verifies the *physical* archive matches what `moodle_backup.xml` claims:
//!
//!   - Every `<activity directory="activities/foo_NN">` has its expected XML
//!     files under that directory (module.xml, inforef.xml, etc.).
//!   - Every `<section directory="sections/section_NN">` has section.xml +
//!     inforef.xml.
//!   - Every always-on top-level XML is present. users.xml is present iff
//!     the root setting `users=1`. badges.xml iff `badges=1`.
//!   - Payloads under `files/XX/HASH` that no `<contenthash>` in `files.xml`
//!     references are flagged as orphans.
//!
//! The conditional gates follow Moodle's backup tasks:
//!   - `backup_activity_task`  (activity directory contents)
//!   - `backup_section_task`   (section directory contents)
//!   - `backup_final_task`     (root files)

use vstd::prelude::*;
use crate::mbz::{last_index, MbzArchive};
use crate::seqs::{first_index, lemma_first_index, lemma_first_index_props};
use crate::text::{
    all_hex, all_hex_of, is_hex_digit, lemma_hex_byte_len, ascii_lower, ascii_lower_of, byte_len, byte_len_of, chars_eq, chars_eq_str,
    chars_of, chars_view, contains_chars, copy_chars, debug_of, debug_quoted, decimal, has_prefix,
    push_chars, push_decimal, push_str, starts_with, starts_with_str, string_of, trim, trim_of,
};
use crate::validate::codes;
use crate::validate::safety::element_texts;
use crate::validate::{issue_view, issues_view, Issue, IssueView, Severity};
use crate::xml::{lemma_scan_finish, scan, scan_all, XmlAttr, XmlCursor, XmlEvent};
use crate::xmldb_shared::{attr_value, read_attr};

verus! {

// ---------------------------------------------------------------------------
// Settings

/// `<setting>` values by name, as inserted in document order; a later
/// insert of the same name replaces the earlier value.
pub struct Settings {
    entries: Vec<(String, String)>,
}

/// The value last inserted under `name`.
pub open spec fn log_lookup(log: Seq<(Seq<char>, Seq<char>)>, name: Seq<char>) -> Option<Seq<char>>
    decreases log.len(),
{
    if log.len() == 0 {
        None
    } else if log.last().0 == name {
        Some(log.last().1)
    } else {
        log_lookup(log.drop_last(), name)
    }
}

impl View for Settings {
    type V = Seq<(Seq<char>, Seq<char>)>;

    closed spec fn view(&self) -> Seq<(Seq<char>, Seq<char>)> {
        self.entries@.map_values(|e: (String, String)| (e.0@, e.1@))
    }
}

impl Settings {
    pub fn new() -> (s: Settings)
        ensures
            s@ == Seq::<(Seq<char>, Seq<char>)>::empty(),
    {
        let s = Settings { entries: Vec::new() };
        assert(s@ =~= Seq::<(Seq<char>, Seq<char>)>::empty());
        s
    }

    /// Record `name = value`.
    pub fn insert(&mut self, name: String, value: String)
        ensures
            final(self)@ == old(self)@.push((name@, value@)),
    {
        let ghost n = name@;
        let ghost v = value@;
        self.entries.push((name, value));
        assert(self@ =~= old(self)@.push((n, v)));
    }

    /// The value of setting `name`.
    pub fn get(&self, name: &str) -> (r: Option<&String>)
        ensures
            match r {
                Some(v) => log_lookup(self@, name@) == Some(v@),
                None => log_lookup(self@, name@) is None,
            },
    {
        let target = chars_of(name);
        let mut i: usize = self.entries.len();
        assert(self@.take(i as int) =~= self@);
        while i > 0
            invariant
                i <= self.entries@.len(),
                self@.len() == self.entries@.len(),
                target@ == name@,
                log_lookup(self@, name@) == log_lookup(self@.take(i as int), name@),
            decreases i,
        {
            let k = chars_of(self.entries[i - 1].0.as_str());
            assert(self@.take(i as int).last() == self@[i - 1]);
            assert(self@.take(i as int).drop_last() =~= self@.take(i - 1));
            if chars_eq(k.as_slice(), target.as_slice()) {
                return Some(&self.entries[i - 1].1);
            }
            i -= 1;
        }
        None
    }
}

/// Settings scoped by activity or section directory basename.
pub struct ScopedSettings {
    entries: Vec<(String, String, String)>,
}

/// The value last inserted under (`scope`, `name`).
pub open spec fn scoped_lookup(
    log: Seq<(Seq<char>, Seq<char>, Seq<char>)>,
    scope: Seq<char>,
    name: Seq<char>,
) -> Option<Seq<char>>
    decreases log.len(),
{
    if log.len() == 0 {
        None
    } else if log.last().0 == scope && log.last().1 == name {
        Some(log.last().2)
    } else {
        scoped_lookup(log.drop_last(), scope, name)
    }
}

impl View for ScopedSettings {
    type V = Seq<(Seq<char>, Seq<char>, Seq<char>)>;

    closed spec fn view(&self) -> Seq<(Seq<char>, Seq<char>, Seq<char>)> {
        self.entries@.map_values(|e: (String, String, String)| (e.0@, e.1@, e.2@))
    }
}

impl ScopedSettings {
    pub fn new() -> (s: ScopedSettings)
        ensures
            s@ == Seq::<(Seq<char>, Seq<char>, Seq<char>)>::empty(),
    {
        let s = ScopedSettings { entries: Vec::new() };
        assert(s@ =~= Seq::<(Seq<char>, Seq<char>, Seq<char>)>::empty());
        s
    }

    /// Record `name = value` for `scope`.
    pub fn insert(&mut self, scope: String, name: String, value: String)
        ensures
            final(self)@ == old(self)@.push((scope@, name@, value@)),
    {
        let ghost t = (scope@, name@, value@);
        self.entries.push((scope, name, value));
        assert(self@ =~= old(self)@.push(t));
    }

    /// The value of setting `name` for `scope`.
    pub fn get(&self, scope: &str, name: &str) -> (r: Option<&String>)
        ensures
            match r {
                Some(v) => scoped_lookup(self@, scope@, name@) == Some(v@),
                None => scoped_lookup(self@, scope@, name@) is None,
            },
    {
        let sc = chars_of(scope);
        let target = chars_of(name);
        let mut i: usize = self.entries.len();
        assert(self@.take(i as int) =~= self@);
        while i > 0
            invariant
                i <= self.entries@.len(),
                self@.len() == self.entries@.len(),
                sc@ == scope@,
                target@ == name@,
                scoped_lookup(self@, scope@, name@) == scoped_lookup(self@.take(i as int), scope@, name@),
            decreases i,
        {
            let s = chars_of(self.entries[i - 1].0.as_str());
            let k = chars_of(self.entries[i - 1].1.as_str());
            assert(self@.take(i as int).last() == self@[i - 1]);
            assert(self@.take(i as int).drop_last() =~= self@.take(i - 1));
            if chars_eq(s.as_slice(), sc.as_slice()) && chars_eq(k.as_slice(), target.as_slice()) {
                return Some(&self.entries[i - 1].2);
            }
            i -= 1;
        }
        None
    }
}

// ---------------------------------------------------------------------------
// Manifest

/// Extracted view of moodle_backup.xml.
pub struct Manifest {
    pub activities: Vec<ActivityRef>,
    pub sections: Vec<SectionRef>,
    pub root_settings: Settings,
    /// activity dir basename (e.g. "assign_5") -> setting-name -> value
    pub per_activity_settings: ScopedSettings,
    pub per_section_settings: ScopedSettings,
}

pub struct ActivityRef {
    pub directory: String,
    pub modulename: String,
}

pub struct SectionRef {
    pub directory: String,
}

/// A manifest as plain sequences: activity (directory, module name) pairs,
/// section directories, and the settings logs.
pub struct ManifestView {
    pub activities: Seq<(Seq<char>, Seq<char>)>,
    pub sections: Seq<Seq<char>>,
    pub root: Seq<(Seq<char>, Seq<char>)>,
    pub per_activity: Seq<(Seq<char>, Seq<char>, Seq<char>)>,
    pub per_section: Seq<(Seq<char>, Seq<char>, Seq<char>)>,
}

pub open spec fn activities_view(v: Seq<ActivityRef>) -> Seq<(Seq<char>, Seq<char>)> {
    v.map_values(|a: ActivityRef| (a.directory@, a.modulename@))
}

pub open spec fn sections_view(v: Seq<SectionRef>) -> Seq<Seq<char>> {
    v.map_values(|s: SectionRef| s.directory@)
}

impl View for Manifest {
    type V = ManifestView;

    open spec fn view(&self) -> ManifestView {
        ManifestView {
            activities: activities_view(self.activities@),
            sections: sections_view(self.sections@),
            root: self.root_settings@,
            per_activity: self.per_activity_settings@,
            per_section: self.per_section_settings@,
        }
    }
}

pub open spec fn empty_manifest() -> ManifestView {
    ManifestView {
        activities: Seq::empty(),
        sections: Seq::empty(),
        root: Seq::empty(),
        per_activity: Seq::empty(),
        per_section: Seq::empty(),
    }
}

impl Manifest {
    pub fn new() -> (m: Manifest)
        ensures
            m@ == empty_manifest(),
    {
        let m = Manifest {
            activities: Vec::new(),
            sections: Vec::new(),
            root_settings: Settings::new(),
            per_activity_settings: ScopedSettings::new(),
            per_section_settings: ScopedSettings::new(),
        };
        assert(m@.activities =~= Seq::<(Seq<char>, Seq<char>)>::empty());
        assert(m@.sections =~= Seq::<Seq<char>>::empty());
        m
    }
}

impl Default for Manifest {
    fn default() -> (m: Manifest)
        ensures
            m@ == empty_manifest(),
    {
        Manifest::new()
    }
}

// ---------------------------------------------------------------------------
// Parsing moodle_backup.xml

/// Reading state of `parse_manifest`.
pub ghost struct MState {
    /// Names of the open elements, outermost first.
    pub path: Seq<Seq<char>>,
    /// The `<activity>` row being read: (directory, module name).
    pub act: Option<(Seq<char>, Seq<char>)>,
    /// The `<section>` row being read: its directory.
    pub sec: Option<Seq<char>>,
    /// Children of the `<setting>` being read.
    pub level: Option<Seq<char>>,
    pub ssec: Option<Seq<char>>,
    pub sact: Option<Seq<char>>,
    pub sname: Option<Seq<char>>,
    pub svalue: Option<Seq<char>>,
    /// Text of the element being read.
    pub text: Seq<char>,
    pub m: ManifestView,
}

pub open spec fn mstate_init() -> MState {
    MState {
        path: Seq::empty(),
        act: None,
        sec: None,
        level: None,
        ssec: None,
        sact: None,
        sname: None,
        svalue: None,
        text: Seq::empty(),
        m: empty_manifest(),
    }
}

/// The name of the element enclosing the innermost open one ("" at top).
pub open spec fn parent_of(path: Seq<Seq<char>>) -> Seq<char> {
    if path.len() >= 2 {
        path[path.len() - 2]
    } else {
        Seq::empty()
    }
}

/// A finished `<setting>`: with a level, a name and a value it is recorded
/// in the root, activity or section settings (the latter two only when the
/// setting names its activity or section).
pub open spec fn record_setting(s: MState) -> ManifestView {
    match (s.level, s.sname, s.svalue) {
        (Some(l), Some(n), Some(v)) => if l == "root"@ {
            ManifestView { root: s.m.root.push((n, v)), ..s.m }
        } else if l == "activity"@ {
            match s.sact {
                Some(a) => ManifestView { per_activity: s.m.per_activity.push((a, n, v)), ..s.m },
                None => s.m,
            }
        } else if l == "section"@ {
            match s.ssec {
                Some(c) => ManifestView { per_section: s.m.per_section.push((c, n, v)), ..s.m },
                None => s.m,
            }
        } else {
            s.m
        },
        _ => s.m,
    }
}

/// What closing element `name` (inside `parent`, with trimmed text `txt`)
/// does to the state.
pub open spec fn close_element(s: MState, name: Seq<char>, parent: Seq<char>, txt: Seq<char>) -> MState {
    if name == "directory"@ && (parent == "activity"@ || parent == "section"@) {
        MState {
            act: match s.act {
                Some(a) => Some((txt, a.1)),
                None => None,
            },
            sec: match s.sec {
                Some(_) => Some(txt),
                None => None,
            },
            ..s
        }
    } else if name == "modulename"@ && parent == "activity"@ {
        MState {
            act: match s.act {
                Some(a) => Some((a.0, txt)),
                None => None,
            },
            ..s
        }
    } else if name == "activity"@ && parent == "activities"@ {
        MState {
            act: None,
            m: match s.act {
                Some(a) => if a.0.len() > 0 {
                    ManifestView { activities: s.m.activities.push(a), ..s.m }
                } else {
                    s.m
                },
                None => s.m,
            },
            ..s
        }
    } else if name == "section"@ && parent == "sections"@ {
        MState {
            sec: None,
            m: match s.sec {
                Some(d) => if d.len() > 0 {
                    ManifestView { sections: s.m.sections.push(d), ..s.m }
                } else {
                    s.m
                },
                None => s.m,
            },
            ..s
        }
    } else if name == "level"@ && parent == "setting"@ {
        MState { level: Some(txt), ..s }
    } else if name == "section"@ && parent == "setting"@ {
        MState { ssec: if txt.len() > 0 { Some(txt) } else { s.ssec }, ..s }
    } else if name == "activity"@ && parent == "setting"@ {
        MState { sact: if txt.len() > 0 { Some(txt) } else { s.sact }, ..s }
    } else if name == "name"@ && parent == "setting"@ {
        MState { sname: Some(txt), ..s }
    } else if name == "value"@ && parent == "setting"@ {
        MState { svalue: Some(txt), ..s }
    } else if name == "setting"@ {
        MState {
            m: record_setting(s),
            level: None,
            ssec: None,
            sact: None,
            sname: None,
            svalue: None,
            ..s
        }
    } else {
        s
    }
}

/// Closing the innermost open element: act on it, pop it, clear the text.
pub open spec fn close_step(s: MState) -> MState {
    let t = if s.path.len() > 0 {
        close_element(s, s.path.last(), parent_of(s.path), trim(s.text))
    } else {
        s
    };
    MState {
        path: if s.path.len() > 0 { s.path.drop_last() } else { s.path },
        text: Seq::empty(),
        ..t
    }
}

/// A value that counts only when it is not empty.
pub open spec fn nonempty(o: Option<Seq<char>>) -> Option<Seq<char>> {
    match o {
        Some(v) => if v.len() > 0 { Some(v) } else { None },
        None => None,
    }
}

/// A `<setting>` tag starts a fresh setting whose level, name, value,
/// section and activity are taken from its attributes where it has them
/// (`<setting level="root" name="users" value="1"/>`); child elements read
/// later replace them.
pub open spec fn setting_from_attrs(s: MState, attrs: Seq<XmlAttr>) -> MState {
    MState {
        level: attr_value(attrs, "level"@),
        ssec: nonempty(attr_value(attrs, "section"@)),
        sact: nonempty(attr_value(attrs, "activity"@)),
        sname: attr_value(attrs, "name"@),
        svalue: attr_value(attrs, "value"@),
        ..s
    }
}

/// Opening element `name`: push it, clear the text; an `<activity>` or
/// `<section>` under `<activities>`/`<sections>` starts a row, a `<setting>`
/// starts a fresh setting from its attributes.
pub open spec fn open_step(s: MState, name: Seq<char>, attrs: Seq<XmlAttr>) -> MState {
    let path = s.path.push(name);
    let t = MState { path: path, text: Seq::empty(), ..s };
    if name == "activity"@ {
        if path.contains("activities"@) {
            MState { act: Some((Seq::empty(), Seq::empty())), ..t }
        } else {
            t
        }
    } else if name == "section"@ {
        if path.contains("sections"@) {
            MState { sec: Some(Seq::empty()), ..t }
        } else {
            t
        }
    } else if name == "setting"@ {
        setting_from_attrs(t, attrs)
    } else {
        t
    }
}

pub open spec fn manifest_step(s: MState, e: XmlEvent) -> MState {
    match e {
        XmlEvent::Start { name, attrs } => open_step(s, name@, attrs@),
        XmlEvent::Empty { name, attrs } => {
            let t = if name@ == "setting"@ { setting_from_attrs(s, attrs@) } else { s };
            close_step(MState { path: t.path.push(name@), ..t })
        },
        XmlEvent::Text { text } => MState { text: s.text + text@, ..s },
        XmlEvent::CData { text } => MState { text: s.text + text@, ..s },
        XmlEvent::End { .. } => close_step(s),
        _ => s,
    }
}

pub open spec fn manifest_fn() -> spec_fn(MState, XmlEvent) -> MState {
    |s: MState, e: XmlEvent| manifest_step(s, e)
}

/// The manifest moodle_backup.xml describes; empty when reading stops on a
/// parse error.
pub open spec fn manifest_of(src: Seq<u8>) -> ManifestView {
    let r = scan_all(src, true, mstate_init(), manifest_fn());
    if r.1 matches Some(XmlEvent::Error { .. }) {
        empty_manifest()
    } else {
        r.0.m
    }
}

pub open spec fn opt_view(o: Option<Vec<char>>) -> Option<Seq<char>> {
    match o {
        Some(v) => Some(v@),
        None => None,
    }
}

/// The executable reading state of `parse_manifest`.
struct ManifestReader {
    path: Vec<Vec<char>>,
    act: Option<(Vec<char>, Vec<char>)>,
    sec: Option<Vec<char>>,
    level: Option<Vec<char>>,
    ssec: Option<Vec<char>>,
    sact: Option<Vec<char>>,
    sname: Option<Vec<char>>,
    svalue: Option<Vec<char>>,
    text: Vec<char>,
    m: Manifest,
}

impl View for ManifestReader {
    type V = MState;

    closed spec fn view(&self) -> MState {
        MState {
            path: chars_view(self.path@),
            act: match self.act {
                Some(a) => Some((a.0@, a.1@)),
                None => None,
            },
            sec: opt_view(self.sec),
            level: opt_view(self.level),
            ssec: opt_view(self.ssec),
            sact: opt_view(self.sact),
            sname: opt_view(self.sname),
            svalue: opt_view(self.svalue),
            text: self.text@,
            m: self.m@,
        }
    }
}

fn path_contains(path: &Vec<Vec<char>>, name: &str) -> (r: bool)
    ensures
        r == chars_view(path@).contains(name@),
{
    let n = chars_of(name);
    contains_chars(path, n.as_slice())
}

fn nonempty_of(o: Option<Vec<char>>) -> (r: Option<Vec<char>>)
    ensures
        opt_view(r) == nonempty(opt_view(o)),
{
    match o {
        Some(v) => if v.len() > 0 { Some(v) } else { None },
        None => None,
    }
}

fn string_of_vec(v: &Vec<char>) -> (s: String)
    ensures
        s@ == v@,
{
    string_of(v.as_slice())
}

impl ManifestReader {
    fn record_setting(&mut self)
        ensures
            final(self)@ == (MState { m: record_setting(old(self)@), ..old(self)@ }),
    {
        match (&self.level, &self.sname, &self.svalue) {
            (Some(l), Some(n), Some(v)) => {
                if chars_eq_str(l.as_slice(), "root") {
                    self.m.root_settings.insert(string_of_vec(n), string_of_vec(v));
                } else if chars_eq_str(l.as_slice(), "activity") {
                    if let Some(a) = &self.sact {
                        self.m.per_activity_settings.insert(string_of_vec(a), string_of_vec(n), string_of_vec(v));
                    }
                } else if chars_eq_str(l.as_slice(), "section") {
                    if let Some(c) = &self.ssec {
                        self.m.per_section_settings.insert(string_of_vec(c), string_of_vec(n), string_of_vec(v));
                    }
                }
            },
            _ => {},
        }
    }

    fn close_element(&mut self, name: &[char], parent: &[char], txt: Vec<char>)
        ensures
            final(self)@ == close_element(old(self)@, name@, parent@, txt@),
    {
        if chars_eq_str(name, "directory") && (chars_eq_str(parent, "activity") || chars_eq_str(parent, "section")) {
            if let Some(a) = &mut self.act {
                a.0 = copy_chars(txt.as_slice());
            }
            if let Some(s) = &mut self.sec {
                *s = copy_chars(txt.as_slice());
            }
        } else if chars_eq_str(name, "modulename") && chars_eq_str(parent, "activity") {
            if let Some(a) = &mut self.act {
                a.1 = txt;
            }
        } else if chars_eq_str(name, "activity") && chars_eq_str(parent, "activities") {
            if let Some((d, n)) = self.act.take() {
                if d.len() > 0 {
                    let r = ActivityRef { directory: string_of_vec(&d), modulename: string_of_vec(&n) };
                    let ghost before = self.m.activities@;
                    self.m.activities.push(r);
                    assert(activities_view(self.m.activities@) =~= activities_view(before).push((d@, n@)));
                }
            }
        } else if chars_eq_str(name, "section") && chars_eq_str(parent, "sections") {
            if let Some(d) = self.sec.take() {
                if d.len() > 0 {
                    let r = SectionRef { directory: string_of_vec(&d) };
                    let ghost before = self.m.sections@;
                    self.m.sections.push(r);
                    assert(sections_view(self.m.sections@) =~= sections_view(before).push(d@));
                }
            }
        } else if chars_eq_str(name, "level") && chars_eq_str(parent, "setting") {
            self.level = Some(txt);
        } else if chars_eq_str(name, "section") && chars_eq_str(parent, "setting") {
            if txt.len() > 0 {
                self.ssec = Some(txt);
            }
        } else if chars_eq_str(name, "activity") && chars_eq_str(parent, "setting") {
            if txt.len() > 0 {
                self.sact = Some(txt);
            }
        } else if chars_eq_str(name, "name") && chars_eq_str(parent, "setting") {
            self.sname = Some(txt);
        } else if chars_eq_str(name, "value") && chars_eq_str(parent, "setting") {
            self.svalue = Some(txt);
        } else if chars_eq_str(name, "setting") {
            self.record_setting();
            self.level = None;
            self.ssec = None;
            self.sact = None;
            self.sname = None;
            self.svalue = None;
        }
    }

    /// Close the innermost open element.
    fn handle_close(&mut self)
        ensures
            final(self)@ == close_step(old(self)@),
    {
        let n = self.path.len();
        if n > 0 {
            let name = copy_chars(self.path[n - 1].as_slice());
            let parent: Vec<char> = if n >= 2 {
                copy_chars(self.path[n - 2].as_slice())
            } else {
                Vec::new()
            };
            assert(n >= 2 ==> parent@ == parent_of(self@.path));
            assert(n < 2 ==> parent@ =~= parent_of(self@.path));
            let txt = trim_of(self.text.as_slice());
            self.close_element(name.as_slice(), parent.as_slice(), txt);
            let ghost before = self.path@;
            self.path.pop();
            assert(chars_view(self.path@) =~= chars_view(before).drop_last());
        }
        self.text = Vec::new();
        assert(self.text@ =~= Seq::<char>::empty());
    }

    /// Start a fresh setting from the attributes of a `<setting>` tag.
    fn load_setting_attrs(&mut self, attrs: &Vec<XmlAttr>)
        ensures
            final(self)@ == setting_from_attrs(old(self)@, attrs@),
    {
        self.level = read_attr(attrs, "level");
        self.ssec = nonempty_of(read_attr(attrs, "section"));
        self.sact = nonempty_of(read_attr(attrs, "activity"));
        self.sname = read_attr(attrs, "name");
        self.svalue = read_attr(attrs, "value");
    }

    fn open_element(&mut self, name: Vec<char>, attrs: &Vec<XmlAttr>)
        ensures
            final(self)@ == open_step(old(self)@, name@, attrs@),
    {
        let ghost before = self.path@;
        self.path.push(copy_chars(name.as_slice()));
        assert(chars_view(self.path@) =~= chars_view(before).push(name@));
        self.text = Vec::new();
        assert(self.text@ =~= Seq::<char>::empty());
        if chars_eq_str(name.as_slice(), "activity") {
            if path_contains(&self.path, "activities") {
                let a: Vec<char> = Vec::new();
                let b: Vec<char> = Vec::new();
                assert(a@ =~= Seq::<char>::empty());
                assert(b@ =~= Seq::<char>::empty());
                self.act = Some((a, b));
            }
        } else if chars_eq_str(name.as_slice(), "section") {
            if path_contains(&self.path, "sections") {
                let a: Vec<char> = Vec::new();
                assert(a@ =~= Seq::<char>::empty());
                self.sec = Some(a);
            }
        } else if chars_eq_str(name.as_slice(), "setting") {
            self.load_setting_attrs(attrs);
        }
    }
}

/// Parse moodle_backup.xml into a Manifest. Returns an empty Manifest on a
/// parse error (well_formed already reported parse failures).
pub fn parse_manifest(bytes: &[u8]) -> (m: Manifest)
    ensures
        m@ == manifest_of(bytes@),
{
    let ghost step = manifest_fn();
    let mut r = ManifestReader {
        path: Vec::new(),
        act: None,
        sec: None,
        level: None,
        ssec: None,
        sact: None,
        sname: None,
        svalue: None,
        text: Vec::new(),
        m: Manifest::new(),
    };
    assert(r@ =~= mstate_init()) by {
        assert(chars_view(r.path@) =~= Seq::<Seq<char>>::empty());
        assert(r.text@ =~= Seq::<char>::empty());
    }
    let mut cur = XmlCursor::open(bytes, true);
    loop
        invariant_except_break
            cur.src() == bytes@,
            cur.trim(),
            cur.count() <= bytes@.len(),
            step == manifest_fn(),
            scan(bytes@, true, cur.count(), mstate_init(), step).1 is None,
            r@ == scan(bytes@, true, cur.count(), mstate_init(), step).0,
        ensures
            r@ == scan_all(bytes@, true, mstate_init(), step).0,
            scan_all(bytes@, true, mstate_init(), step).1 == Some(XmlEvent::Eof),
        decreases bytes@.len() + 1 - cur.count(),
    {
        let ghost k = cur.count();
        let ev = cur.next();
        match ev {
            XmlEvent::Start { name, attrs } => {
                r.open_element(name, &attrs);
            },
            XmlEvent::Empty { name, attrs } => {
                if chars_eq_str(name.as_slice(), "setting") {
                    r.load_setting_attrs(&attrs);
                }
                let ghost before = r.path@;
                r.path.push(name);
                assert(chars_view(r.path@) =~= chars_view(before).push(name@));
                r.handle_close();
            },
            XmlEvent::Text { text } => {
                push_chars(&mut r.text, text.as_slice());
            },
            XmlEvent::CData { text } => {
                push_chars(&mut r.text, text.as_slice());
            },
            XmlEvent::End { .. } => {
                r.handle_close();
            },
            XmlEvent::Eof => {
                proof {
                    lemma_scan_finish(bytes@, true, k, mstate_init(), step);
                }
                break;
            },
            XmlEvent::Error { .. } => {
                proof {
                    lemma_scan_finish(bytes@, true, k, mstate_init(), step);
                }
                return Manifest::new();
            },
            _ => {},
        }
    }
    r.m
}

// ---------------------------------------------------------------------------
// Required files

/// Files that always appear under each activity directory.
///
/// `grading.xml` is not required although the activity task adds its step
/// unconditionally: the step is skipped for modules without advanced
/// grading, which cannot be known from the backup. `competencies.xml` is not
/// required either: many real-world exporters skip it and restore tolerates
/// its absence.
pub open spec fn activity_always() -> Seq<Seq<char>> {
    seq!["module.xml"@, "roles.xml"@, "grades.xml"@, "inforef.xml"@]
}

/// Per-activity files gated by a setting on that activity:
/// (setting name, file name) pairs.
pub open spec fn activity_setting_gated() -> Seq<(Seq<char>, Seq<char>)> {
    seq![
        ("filters"@, "filters.xml"@),
        ("comments"@, "comments.xml"@),
        ("userscompletion"@, "completion.xml"@),
        ("logs"@, "logs.xml"@),
        ("logs"@, "logstores.xml"@),
        ("calendarevents"@, "calendar.xml"@),
        ("xapistate"@, "xapistate.xml"@),
    ]
}

/// Files always under each section directory.
pub open spec fn section_always() -> Seq<Seq<char>> {
    seq!["section.xml"@, "inforef.xml"@]
}

/// Root XMLs that always exist. `grade_history.xml` is gated instead: its
/// step only runs when the gradebook is backed up with grade histories.
pub open spec fn root_always() -> Seq<Seq<char>> {
    seq![
        "groups.xml"@,
        "questions.xml"@,
        "roles.xml"@,
        "gradebook.xml"@,
        "completion.xml"@,
        "scales.xml"@,
        "outcomes.xml"@,
        "files.xml"@,
        "moodle_backup.xml"@,
    ]
}

/// Root XMLs gated by a root-level setting: (setting name, file name).
pub open spec fn root_setting_gated() -> Seq<(Seq<char>, Seq<char>)> {
    seq![
        ("users"@, "users.xml"@),
        ("badges"@, "badges.xml"@),
        ("grade_histories"@, "grade_history.xml"@),
    ]
}

fn activity_always_exec() -> (r: Vec<&'static str>)
    ensures
        r@.map_values(|s: &'static str| s@) == activity_always(),
{
    let r = vec!["module.xml", "roles.xml", "grades.xml", "inforef.xml"];
    assert(r@.map_values(|s: &'static str| s@) =~= activity_always());
    r
}

fn activity_setting_gated_exec() -> (r: Vec<(&'static str, &'static str)>)
    ensures
        r@.map_values(|p: (&'static str, &'static str)| (p.0@, p.1@)) == activity_setting_gated(),
{
    let r = vec![
        ("filters", "filters.xml"),
        ("comments", "comments.xml"),
        ("userscompletion", "completion.xml"),
        ("logs", "logs.xml"),
        ("logs", "logstores.xml"),
        ("calendarevents", "calendar.xml"),
        ("xapistate", "xapistate.xml"),
    ];
    assert(r@.map_values(|p: (&'static str, &'static str)| (p.0@, p.1@)) =~= activity_setting_gated());
    r
}

fn section_always_exec() -> (r: Vec<&'static str>)
    ensures
        r@.map_values(|s: &'static str| s@) == section_always(),
{
    let r = vec!["section.xml", "inforef.xml"];
    assert(r@.map_values(|s: &'static str| s@) =~= section_always());
    r
}

fn root_always_exec() -> (r: Vec<&'static str>)
    ensures
        r@.map_values(|s: &'static str| s@) == root_always(),
{
    let r = vec![
        "groups.xml",
        "questions.xml",
        "roles.xml",
        "gradebook.xml",
        "completion.xml",
        "scales.xml",
        "outcomes.xml",
        "files.xml",
        "moodle_backup.xml",
    ];
    assert(r@.map_values(|s: &'static str| s@) =~= root_always());
    r
}

fn root_setting_gated_exec() -> (r: Vec<(&'static str, &'static str)>)
    ensures
        r@.map_values(|p: (&'static str, &'static str)| (p.0@, p.1@)) == root_setting_gated(),
{
    let r = vec![("users", "users.xml"), ("badges", "badges.xml"), ("grade_histories", "grade_history.xml")];
    assert(r@.map_values(|p: (&'static str, &'static str)| (p.0@, p.1@)) =~= root_setting_gated());
    r
}

/// A setting value that turns a gate on: "1" or "true" in any ASCII case,
/// ignoring surrounding whitespace. A missing setting is off.
pub open spec fn is_on(v: Option<Seq<char>>) -> bool {
    match v {
        Some(x) => ascii_lower(trim(x)) == "1"@ || ascii_lower(trim(x)) == "true"@,
        None => false,
    }
}

fn is_on_exec(v: Option<&String>) -> (r: bool)
    ensures
        r == is_on(match v {
            Some(x) => Some(x@),
            None => None,
        }),
{
    match v {
        Some(x) => {
            let c = chars_of(x.as_str());
            let t = trim_of(c.as_slice());
            let l = ascii_lower_of(t.as_slice());
            chars_eq_str(l.as_slice(), "1") || chars_eq_str(l.as_slice(), "true")
        },
        None => false,
    }
}

impl Manifest {
    /// Whether setting `name` is on in `map`.
    pub fn setting_is_on(map: &Settings, name: &str) -> (r: bool)
        ensures
            r == is_on(log_lookup(map@, name@)),
    {
        is_on_exec(map.get(name))
    }
}

/// The gated files whose setting is on for `scope`.
pub open spec fn gated_files(
    log: Seq<(Seq<char>, Seq<char>, Seq<char>)>,
    scope: Seq<char>,
    gated: Seq<(Seq<char>, Seq<char>)>,
) -> Seq<Seq<char>>
    decreases gated.len(),
{
    if gated.len() == 0 {
        Seq::empty()
    } else {
        let prev = gated_files(log, scope, gated.drop_last());
        if is_on(scoped_lookup(log, scope, gated.last().0)) {
            prev.push(gated.last().1)
        } else {
            prev
        }
    }
}

/// The files required under an activity directory with basename `base`.
pub open spec fn required_activity_files(m: ManifestView, base: Seq<char>) -> Seq<Seq<char>> {
    activity_always() + gated_files(m.per_activity, base, activity_setting_gated())
}

impl Manifest {
    /// Required activity files for a given directory basename, taking the
    /// activity's settings into account.
    pub fn required_activity_files(&self, dir_basename: &str) -> (r: Vec<&'static str>)
        ensures
            r@.map_values(|s: &'static str| s@) == required_activity_files(self@, dir_basename@),
    {
        let mut out = activity_always_exec();
        let gated = activity_setting_gated_exec();
        let ghost g = gated@.map_values(|p: (&'static str, &'static str)| (p.0@, p.1@));
        let ghost log = self@.per_activity;
        let mut i: usize = 0;
        while i < gated.len()
            invariant
                i <= gated@.len(),
                g == gated@.map_values(|p: (&'static str, &'static str)| (p.0@, p.1@)),
                g == activity_setting_gated(),
                log == self@.per_activity,
                out@.map_values(|s: &'static str| s@) == activity_always() + gated_files(log, dir_basename@, g.take(i as int)),
            decreases gated@.len() - i,
        {
            assert(g.take(i as int + 1).drop_last() =~= g.take(i as int));
            assert(g.take(i as int + 1).last() == g[i as int]);
            let (setting, file) = gated[i];
            let on = is_on_exec(self.per_activity_settings.get(dir_basename, setting));
            if on {
                let ghost before = out@;
                out.push(file);
                assert(out@.map_values(|s: &'static str| s@) =~= before.map_values(|s: &'static str| s@).push(file@));
            }
            i += 1;
        }
        assert(g.take(gated@.len() as int) =~= g);
        out
    }
}

// ---------------------------------------------------------------------------
// Shape check

/// The last path component of `d`: what follows its last `/` (all of `d`
/// when it has none).
pub open spec fn basename(d: Seq<char>) -> Seq<char> {
    match last_index(d, |c: char| c == '/') {
        Some(i) => d.skip(i + 1),
        None => d,
    }
}

/// Basename of an activity/section directory: the last path component.
/// e.g. "activities/assign_5" -> "assign_5"
pub fn dir_basename(dir: &str) -> (r: &str)
    ensures
        r@ == basename(dir@),
{
    let c = chars_of(dir);
    let mut i: usize = c.len();
    assert(dir@.take(i as int) =~= dir@);
    while i > 0
        invariant
            i <= c@.len(),
            c@ == dir@,
            last_index(dir@, |c: char| c == '/') == last_index(dir@.take(i as int), |c: char| c == '/'),
        decreases i,
    {
        assert(dir@.take(i as int).last() == dir@[i - 1]);
        assert(dir@.take(i as int).drop_last() =~= dir@.take(i - 1));
        if c[i - 1] == '/' {
            return dir.substring_char(i, c.len());
        }
        i -= 1;
    }
    dir
}

/// Errors for the files of `files` missing under directory `dir`.
pub open spec fn missing_in_dir(
    names: Seq<Seq<char>>,
    dir: Seq<char>,
    files: Seq<Seq<char>>,
    code: Seq<char>,
    location: Seq<char>,
    what: Seq<char>,
) -> Seq<IssueView>
    decreases files.len(),
{
    if files.len() == 0 {
        Seq::empty()
    } else {
        let prev = missing_in_dir(names, dir, files.drop_last(), code, location, what);
        let f = files.last();
        if names.contains(dir + "/"@ + f) {
            prev
        } else {
            prev.push(
                issue_view(code, Severity::Error, "moodle_backup.xml"@, location, what + " is missing required file "@ + f),
            )
        }
    }
}

pub open spec fn activity_location(dir: Seq<char>) -> Seq<char> {
    "/moodle_backup/.../activity[directory="@ + dir + "]"@
}

pub open spec fn activity_what(dir: Seq<char>, module: Seq<char>) -> Seq<char> {
    "activity "@ + debug_quoted(dir) + " (module "@ + module + ")"@
}

/// Missing files of each manifest activity, in order.
pub open spec fn activity_issues(
    m: ManifestView,
    acts: Seq<(Seq<char>, Seq<char>)>,
    names: Seq<Seq<char>>,
) -> Seq<IssueView>
    decreases acts.len(),
{
    if acts.len() == 0 {
        Seq::empty()
    } else {
        let a = acts.last();
        activity_issues(m, acts.drop_last(), names) + missing_in_dir(
            names,
            a.0,
            required_activity_files(m, basename(a.0)),
            codes::SHAPE_MISSING_ACTIVITY_FILE@,
            activity_location(a.0),
            activity_what(a.0, a.1),
        )
    }
}

pub open spec fn section_location(dir: Seq<char>) -> Seq<char> {
    "/moodle_backup/.../section[directory="@ + dir + "]"@
}

pub open spec fn section_what(dir: Seq<char>) -> Seq<char> {
    "section "@ + debug_quoted(dir)
}

/// Missing files of each manifest section, in order.
pub open spec fn section_issues(secs: Seq<Seq<char>>, names: Seq<Seq<char>>) -> Seq<IssueView>
    decreases secs.len(),
{
    if secs.len() == 0 {
        Seq::empty()
    } else {
        let d = secs.last();
        section_issues(secs.drop_last(), names) + missing_in_dir(
            names,
            d,
            section_always(),
            codes::SHAPE_MISSING_SECTION_FILE@,
            section_location(d),
            section_what(d),
        )
    }
}

/// Errors for always-on root XMLs that are missing.
pub open spec fn root_always_issues(files: Seq<Seq<char>>, names: Seq<Seq<char>>) -> Seq<IssueView>
    decreases files.len(),
{
    if files.len() == 0 {
        Seq::empty()
    } else {
        let prev = root_always_issues(files.drop_last(), names);
        let f = files.last();
        if names.contains(f) {
            prev
        } else {
            prev.push(
                issue_view(
                    codes::SHAPE_MISSING_ROOT_FILE@,
                    Severity::Error,
                    "moodle_backup.xml"@,
                    "/moodle_backup"@,
                    "required root XML "@ + f + " is missing from the archive"@,
                ),
            )
        }
    }
}

/// Errors for setting-gated root XMLs whose setting is on but that are
/// missing.
pub open spec fn root_gated_issues(
    root: Seq<(Seq<char>, Seq<char>)>,
    gated: Seq<(Seq<char>, Seq<char>)>,
    names: Seq<Seq<char>>,
) -> Seq<IssueView>
    decreases gated.len(),
{
    if gated.len() == 0 {
        Seq::empty()
    } else {
        let prev = root_gated_issues(root, gated.drop_last(), names);
        let (setting, file) = gated.last();
        if is_on(log_lookup(root, setting)) && !names.contains(file) {
            prev.push(
                issue_view(
                    codes::SHAPE_MISSING_ROOT_FILE@,
                    Severity::Error,
                    "moodle_backup.xml"@,
                    "/moodle_backup/.../setting[name="@ + setting + "]"@,
                    "root setting "@ + setting + "=1 implies "@ + file
                        + " should be present, but it is missing"@,
                ),
            )
        } else {
            prev
        }
    }
}

/// All shape issues: activities, then sections, then always-on root files,
/// then setting-gated root files.
pub open spec fn shape_issues(m: ManifestView, names: Seq<Seq<char>>) -> Seq<IssueView> {
    activity_issues(m, m.activities, names) + section_issues(m.sections, names) + root_always_issues(
        root_always(),
        names,
    ) + root_gated_issues(m.root, root_setting_gated(), names)
}

/// Append the errors for files of `files` missing under `dir`.
fn push_missing_in_dir(
    issues: &mut Vec<Issue>,
    names: &Vec<Vec<char>>,
    dir: &[char],
    files: &Vec<&'static str>,
    code: &'static str,
    location: &[char],
    what: &[char],
)
    ensures
        issues_view(final(issues)@) == issues_view(old(issues)@) + missing_in_dir(
            chars_view(names@),
            dir@,
            files@.map_values(|s: &'static str| s@),
            code@,
            location@,
            what@,
        ),
{
    let ghost fs = files@.map_values(|s: &'static str| s@);
    let ghost start = issues_view(issues@);
    let mut i: usize = 0;
    assert(issues_view(issues@) =~= start + missing_in_dir(chars_view(names@), dir@, fs.take(0), code@, location@, what@));
    while i < files.len()
        invariant
            i <= files@.len(),
            fs == files@.map_values(|s: &'static str| s@),
            issues_view(issues@) == start + missing_in_dir(chars_view(names@), dir@, fs.take(i as int), code@, location@, what@),
        decreases files@.len() - i,
    {
        assert(fs.take(i as int + 1).drop_last() =~= fs.take(i as int));
        assert(fs.take(i as int + 1).last() == files@[i as int]@);
        let f = files[i];
        let mut key = copy_chars(dir);
        push_str(&mut key, "/");
        push_str(&mut key, f);
        if !contains_chars(names, key.as_slice()) {
            let mut msg = copy_chars(what);
            push_str(&mut msg, " is missing required file ");
            push_str(&mut msg, f);
            let issue = Issue::of_strs(code, Severity::Error, "moodle_backup.xml", location, msg.as_slice());
            let ghost before = issues_view(issues@);
            issues.push(issue);
            assert(issues_view(issues@) =~= before.push(issue@));
        }
        i += 1;
    }
    assert(fs.take(files@.len() as int) =~= fs);
}

/// Run shape & completeness checks: every manifest activity and section
/// directory holds its required files, every always-on root XML is present,
/// and every root XML whose setting is on is present.
pub fn check(archive: &MbzArchive, manifest: &Manifest) -> (res: Vec<Issue>)
    ensures
        issues_view(res@) == shape_issues(manifest@, archive.entry_names()),
{
    let names = archive.name_chars();
    let ghost all = archive.entry_names();
    let ghost m = manifest@;
    let mut issues: Vec<Issue> = Vec::new();

    // Activity directories.
    let mut i: usize = 0;
    assert(issues_view(issues@) =~= activity_issues(m, m.activities.take(0), all));
    while i < manifest.activities.len()
        invariant
            i <= manifest.activities@.len(),
            m == manifest@,
            all == chars_view(names@),
            m.activities == activities_view(manifest.activities@),
            issues_view(issues@) == activity_issues(m, m.activities.take(i as int), all),
        decreases manifest.activities@.len() - i,
    {
        assert(m.activities.take(i as int + 1).drop_last() =~= m.activities.take(i as int));
        let a = &manifest.activities[i];
        assert(m.activities.take(i as int + 1).last() == (a.directory@, a.modulename@));
        let base = dir_basename(a.directory.as_str());
        let required = manifest.required_activity_files(base);
        let d = chars_of(a.directory.as_str());
        let mut loc = chars_of("/moodle_backup/.../activity[directory=");
        push_chars(&mut loc, d.as_slice());
        push_str(&mut loc, "]");
        let mut what = chars_of("activity ");
        let q = debug_of(d.as_slice());
        push_chars(&mut what, q.as_slice());
        push_str(&mut what, " (module ");
        push_str(&mut what, a.modulename.as_str());
        push_str(&mut what, ")");
        push_missing_in_dir(&mut issues, &names, d.as_slice(), &required, codes::SHAPE_MISSING_ACTIVITY_FILE, loc.as_slice(), what.as_slice());
        i += 1;
    }
    assert(m.activities.take(manifest.activities@.len() as int) =~= m.activities);
    let ghost after_acts = issues_view(issues@);

    // Section directories.
    let section_files = section_always_exec();
    let mut j: usize = 0;
    assert(issues_view(issues@) =~= after_acts + section_issues(m.sections.take(0), all));
    while j < manifest.sections.len()
        invariant
            j <= manifest.sections@.len(),
            m == manifest@,
            all == chars_view(names@),
            m.sections == sections_view(manifest.sections@),
            section_files@.map_values(|s: &'static str| s@) == section_always(),
            issues_view(issues@) == after_acts + section_issues(m.sections.take(j as int), all),
        decreases manifest.sections@.len() - j,
    {
        assert(m.sections.take(j as int + 1).drop_last() =~= m.sections.take(j as int));
        let s = &manifest.sections[j];
        assert(m.sections.take(j as int + 1).last() == s.directory@);
        let d = chars_of(s.directory.as_str());
        let mut loc = chars_of("/moodle_backup/.../section[directory=");
        push_chars(&mut loc, d.as_slice());
        push_str(&mut loc, "]");
        let mut what = chars_of("section ");
        let q = debug_of(d.as_slice());
        push_chars(&mut what, q.as_slice());
        let ghost before = issues_view(issues@);
        push_missing_in_dir(&mut issues, &names, d.as_slice(), &section_files, codes::SHAPE_MISSING_SECTION_FILE, loc.as_slice(), what.as_slice());
        assert(issues_view(issues@) =~= after_acts + section_issues(m.sections.take(j as int + 1), all));
        j += 1;
    }
    assert(m.sections.take(manifest.sections@.len() as int) =~= m.sections);
    let ghost after_secs = issues_view(issues@);

    // Root files: always-on first, then setting-gated.
    let root_files = root_always_exec();
    let ghost rf = root_always();
    let mut k: usize = 0;
    assert(issues_view(issues@) =~= after_secs + root_always_issues(rf.take(0), all));
    while k < root_files.len()
        invariant
            k <= root_files@.len(),
            all == chars_view(names@),
            rf == root_files@.map_values(|s: &'static str| s@),
            issues_view(issues@) == after_secs + root_always_issues(rf.take(k as int), all),
        decreases root_files@.len() - k,
    {
        assert(rf.take(k as int + 1).drop_last() =~= rf.take(k as int));
        assert(rf.take(k as int + 1).last() == root_files@[k as int]@);
        let f = root_files[k];
        let fc = chars_of(f);
        if !contains_chars(&names, fc.as_slice()) {
            let mut msg = chars_of("required root XML ");
            push_str(&mut msg, f);
            push_str(&mut msg, " is missing from the archive");
            let loc = chars_of("/moodle_backup");
            let issue = Issue::of_strs(codes::SHAPE_MISSING_ROOT_FILE, Severity::Error, "moodle_backup.xml", loc.as_slice(), msg.as_slice());
            let ghost before = issues_view(issues@);
            issues.push(issue);
            assert(issues_view(issues@) =~= before.push(issue@));
        }
        k += 1;
    }
    assert(rf.take(root_files@.len() as int) =~= rf);
    let ghost after_root = issues_view(issues@);

    let gated = root_setting_gated_exec();
    let ghost g = root_setting_gated();
    let mut l: usize = 0;
    assert(issues_view(issues@) =~= after_root + root_gated_issues(m.root, g.take(0), all));
    while l < gated.len()
        invariant
            l <= gated@.len(),
            m == manifest@,
            all == chars_view(names@),
            g == gated@.map_values(|p: (&'static str, &'static str)| (p.0@, p.1@)),
            issues_view(issues@) == after_root + root_gated_issues(m.root, g.take(l as int), all),
        decreases gated@.len() - l,
    {
        assert(g.take(l as int + 1).drop_last() =~= g.take(l as int));
        assert(g.take(l as int + 1).last() == (gated@[l as int].0@, gated@[l as int].1@));
        let (setting, file) = gated[l];
        let fc = chars_of(file);
        if Manifest::setting_is_on(&manifest.root_settings, setting) && !contains_chars(&names, fc.as_slice()) {
            let mut loc = chars_of("/moodle_backup/.../setting[name=");
            push_str(&mut loc, setting);
            push_str(&mut loc, "]");
            let mut msg = chars_of("root setting ");
            push_str(&mut msg, setting);
            push_str(&mut msg, "=1 implies ");
            push_str(&mut msg, file);
            push_str(&mut msg, " should be present, but it is missing");
            let issue = Issue::of_strs(codes::SHAPE_MISSING_ROOT_FILE, Severity::Error, "moodle_backup.xml", loc.as_slice(), msg.as_slice());
            let ghost before = issues_view(issues@);
            issues.push(issue);
            assert(issues_view(issues@) =~= before.push(issue@));
        }
        l += 1;
    }
    assert(g.take(gated@.len() as int) =~= g);
    assert(issues_view(issues@) =~= shape_issues(m, all));
    issues
}

// ---------------------------------------------------------------------------
// Orphan payloads

/// The 40-hex content hash of an entry named `files/<2hex>/<40hex>` whose
/// two-character directory is the hash's first two characters.
pub open spec fn payload_hash(name: Seq<char>) -> Option<Seq<char>> {
    if !has_prefix(name, "files/"@) {
        None
    } else {
        let rest = name.skip(6);
        match first_index(rest, |c: char| c == '/') {
            None => None,
            Some(i) => {
                let prefix = rest.take(i);
                let hash = rest.skip(i + 1);
                if byte_len(prefix) == 2 && byte_len(hash) == 40 && all_hex(prefix) && all_hex(hash)
                    && has_prefix(hash, prefix) {
                    Some(hash)
                } else {
                    None
                }
            },
        }
    }
}

/// Returns the 40-char content hash if `name` is shaped like
/// `files/<2hex>/<40hex>` and the two-char prefix matches the hash's first
/// two characters.
pub fn parse_file_payload_entry(name: &str) -> (r: Option<&str>)
    ensures
        match r {
            Some(h) => payload_hash(name@) == Some(h@),
            None => payload_hash(name@) is None,
        },
{
    let c = chars_of(name);
    proof {
        reveal_strlit("files/");
    }
    if !starts_with_str(c.as_slice(), "files/") {
        return None;
    }
    let ghost rest = name@.skip(6);
    let mut i: usize = 6;
    while i < c.len() && c[i] != '/'
        invariant
            6 <= i <= c@.len(),
            c@ == name@,
            rest == name@.skip(6),
            forall|j: int| 0 <= j < i - 6 ==> rest[j] != '/',
        decreases c@.len() - i,
    {
        i += 1;
    }
    proof {
        lemma_first_index(rest, |ch: char| ch == '/', i - 6);
    }
    if i == c.len() {
        return None;
    }
    let prefix = name.substring_char(6, i);
    let hash = name.substring_char(i + 1, c.len());
    assert(prefix@ =~= rest.take(i - 6));
    assert(hash@ =~= rest.skip(i - 6 + 1));
    let pc = chars_of(prefix);
    let hc = chars_of(hash);
    if byte_len_of(pc.as_slice()) != 2 || byte_len_of(hc.as_slice()) != 40 {
        return None;
    }
    if !all_hex_of(pc.as_slice()) {
        return None;
    }
    if !all_hex_of(hc.as_slice()) {
        return None;
    }
    if !starts_with(hc.as_slice(), pc.as_slice()) {
        return None;
    }
    Some(hash)
}

/// Payload hashes of the entries `names`, in order, that `referenced` does
/// not hold.
pub open spec fn orphan_hashes(names: Seq<Seq<char>>, referenced: Seq<Seq<char>>) -> Seq<Seq<char>>
    decreases names.len(),
{
    if names.len() == 0 {
        Seq::empty()
    } else {
        let prev = orphan_hashes(names.drop_last(), referenced);
        match payload_hash(names.last()) {
            Some(h) => if referenced.contains(h) {
                prev
            } else {
                prev.push(h)
            },
            None => prev,
        }
    }
}

/// The sequences of `v` joined by `sep`.
pub open spec fn join(v: Seq<Seq<char>>, sep: Seq<char>) -> Seq<char>
    decreases v.len(),
{
    if v.len() == 0 {
        Seq::empty()
    } else if v.len() == 1 {
        v[0]
    } else {
        join(v.drop_last(), sep) + sep + v.last()
    }
}

/// How many orphans are listed by hash.
pub const ORPHAN_SAMPLE_CAP: usize = 5;

/// At most one warning counting the orphan payloads and listing the first
/// few.
pub open spec fn orphan_issues(names: Seq<Seq<char>>, files_xml: Seq<u8>) -> Seq<IssueView> {
    let orphans = orphan_hashes(names, element_texts(files_xml, "contenthash"@));
    let n = orphans.len();
    let listed = join(orphans.take(if n > 5 { 5 } else { n as int }), ", "@);
    if n == 0 {
        Seq::empty()
    } else {
        seq![
            issue_view(
                codes::ORPHAN_FILE_PAYLOAD@,
                Severity::Warning,
                "files.xml"@,
                "/files"@,
                if n > 5 {
                    decimal(n) + " file payload(s) in zip have no <contenthash> in files.xml: "@ + listed
                        + " (and "@ + decimal((n - 5) as nat) + " more)"@
                } else {
                    decimal(n) + " file payload(s) in zip have no <contenthash> in files.xml: "@ + listed
                },
            ),
        ]
    }
}

/// Orphan-file payload detector: archive entries shaped `files/<2hex>/<40hex>`
/// whose hash no `<contenthash>` of files.xml references. One warning that
/// counts them and lists the first five.
pub fn check_orphan_files(archive: &MbzArchive, files_xml_bytes: &[u8]) -> (res: Vec<Issue>)
    ensures
        issues_view(res@) == orphan_issues(archive.entry_names(), files_xml_bytes@),
{
    let referenced = crate::manifest::extract_contenthashes(files_xml_bytes);
    let ghost refs = chars_view(referenced@);
    let names = archive.names();
    let ghost all = archive.entry_names();
    let mut orphans: Vec<Vec<char>> = Vec::new();
    let mut i: usize = 0;
    assert(chars_view(orphans@) =~= orphan_hashes(all.take(0), refs));
    while i < names.len()
        invariant
            i <= names@.len(),
            all == crate::mbz::names_view(names@),
            refs == chars_view(referenced@),
            chars_view(orphans@) == orphan_hashes(all.take(i as int), refs),
            orphans@.len() <= i,
        decreases names@.len() - i,
    {
        assert(all.take(i as int + 1).drop_last() =~= all.take(i as int));
        assert(all.take(i as int + 1).last() == names@[i as int]@);
        if let Some(hash) = parse_file_payload_entry(names[i].as_str()) {
            let h = chars_of(hash);
            if !contains_chars(&referenced, h.as_slice()) {
                let ghost before = orphans@;
                orphans.push(h);
                assert(chars_view(orphans@) =~= chars_view(before).push(hash@));
            }
        }
        i += 1;
    }
    assert(all.take(names@.len() as int) =~= all);
    let ghost os = chars_view(orphans@);
    let n = orphans.len();
    if n == 0 {
        let v: Vec<Issue> = Vec::new();
        assert(issues_view(v@) =~= Seq::<IssueView>::empty());
        return v;
    }
    let shown: usize = if n > ORPHAN_SAMPLE_CAP { ORPHAN_SAMPLE_CAP } else { n };
    let mut listed: Vec<char> = Vec::new();
    let mut j: usize = 0;
    assert(os.take(0) =~= Seq::<Seq<char>>::empty());
    while j < shown
        invariant
            j <= shown <= orphans@.len(),
            os == chars_view(orphans@),
            listed@ == join(os.take(j as int), ", "@),
        decreases shown - j,
    {
        assert(os.take(j as int + 1).drop_last() =~= os.take(j as int));
        assert(os.take(j as int + 1).last() == orphans@[j as int]@);
        if j > 0 {
            push_str(&mut listed, ", ");
        }
        push_chars(&mut listed, orphans[j].as_slice());
        proof {
            if j == 0 {
                assert(listed@ =~= os.take(1)[0]);
            }
        }
        j += 1;
    }
    let mut msg: Vec<char> = Vec::new();
    push_decimal(&mut msg, n as u64);
    push_str(&mut msg, " file payload(s) in zip have no <contenthash> in files.xml: ");
    push_chars(&mut msg, listed.as_slice());
    if n > ORPHAN_SAMPLE_CAP {
        push_str(&mut msg, " (and ");
        push_decimal(&mut msg, (n - ORPHAN_SAMPLE_CAP) as u64);
        push_str(&mut msg, " more)");
    }
    let loc = chars_of("/files");
    let issue = Issue::of_strs(codes::ORPHAN_FILE_PAYLOAD, Severity::Warning, "files.xml", loc.as_slice(), msg.as_slice());
    let v = vec![issue];
    assert(issues_view(v@) =~= seq![issue@]);
    v
}

/// A payload that files.xml references is never reported as an orphan, and
/// every orphan is the hash of a `files/<2hex>/<40hex>` entry.
pub proof fn law_orphans_are_unreferenced(names: Seq<Seq<char>>, referenced: Seq<Seq<char>>)
    ensures
        forall|j: int| 0 <= j < orphan_hashes(names, referenced).len() ==> !referenced.contains(
            #[trigger] orphan_hashes(names, referenced)[j],
        ),
        forall|j: int| #![trigger orphan_hashes(names, referenced)[j]] 0 <= j < orphan_hashes(names, referenced).len() ==> exists|k: int|
            0 <= k < names.len() && payload_hash(#[trigger] names[k]) == Some(orphan_hashes(names, referenced)[j]),
    decreases names.len(),
{
    if names.len() > 0 {
        law_orphans_are_unreferenced(names.drop_last(), referenced);
        let prev = orphan_hashes(names.drop_last(), referenced);
        let cur = orphan_hashes(names, referenced);
        assert forall|j: int| #![trigger cur[j]] 0 <= j < cur.len() implies exists|k: int|
            0 <= k < names.len() && payload_hash(#[trigger] names[k]) == Some(cur[j]) by {
            if j < prev.len() {
                assert(cur[j] == prev[j]);
                let k = choose|k: int| 0 <= k < names.drop_last().len() && payload_hash(names.drop_last()[k]) == Some(prev[j]);
                assert(names[k] == names.drop_last()[k]);
            } else {
                assert(names[names.len() - 1] == names.last());
            }
        }
        assert forall|j: int| 0 <= j < cur.len() implies !referenced.contains(#[trigger] cur[j]) by {
            if j < prev.len() {
                assert(cur[j] == prev[j]);
            }
        }
    }
}


/// The payload entry name of a content hash: `files/<first two>/<hash>`.
pub open spec fn payload_name(h: Seq<char>) -> Seq<char> {
    "files/"@ + h.take(2) + "/"@ + h
}

/// Every 40-hex content hash comes back out of its payload entry name.
pub proof fn law_payload_entry_round_trip(h: Seq<char>)
    requires
        h.len() == 40,
        all_hex(h),
    ensures
        payload_hash(payload_name(h)) == Some(h),
{
    reveal_strlit("files/");
    reveal_strlit("/");
    let n = payload_name(h);
    let p = h.take(2);
    assert(n.subrange(0, 6) =~= "files/"@);
    let rest = n.skip(6);
    assert(rest =~= p + "/"@ + h);
    let slash = |c: char| c == '/';
    assert forall|j: int| 0 <= j < 2 implies !slash(#[trigger] rest[j]) by {
        assert(rest[j] == h[j]);
        assert(is_hex_digit(h[j]));
    }
    lemma_first_index(rest, slash, 2);
    assert(rest.take(2) =~= p);
    assert(rest.skip(3) =~= h);
    lemma_hex_byte_len(p);
    lemma_hex_byte_len(h);
    assert(all_hex(p));
    assert(h.subrange(0, 2) =~= p);
}

/// Only payload entry names give a hash: a name that yields a hash is the
/// payload entry name of that hash, and the hash is 40 hex characters.
pub proof fn law_payload_hash_only_from_entries(n: Seq<char>)
    requires
        n.len() <= usize::MAX,
    ensures
        payload_hash(n) matches Some(h) ==> {
            &&& h.len() == 40
            &&& all_hex(h)
            &&& n == payload_name(h)
        },
{
    reveal_strlit("files/");
    reveal_strlit("/");
    if let Some(h) = payload_hash(n) {
        let rest = n.skip(6);
        let slash = |c: char| c == '/';
        lemma_first_index_props(rest, slash);
        let i = first_index(rest, slash)->Some_0;
        let prefix = rest.take(i);
        assert(h == rest.skip(i + 1));
        lemma_hex_byte_len(prefix);
        lemma_hex_byte_len(h);
        assert(prefix.len() == 2);
        assert(h.take(2) =~= prefix) by {
            assert(h.subrange(0, prefix.len() as int) == prefix);
        }
        assert(n =~= payload_name(h)) by {
            assert(n.subrange(0, 6) == "files/"@);
            assert(rest[i] == '/');
            assert(n =~= n.subrange(0, 6) + rest.take(i) + seq![rest[i]] + rest.skip(i + 1));
            assert(seq![rest[i]] =~= "/"@);
        }
    }
}

proof fn lemma_missing_in_dir_has(
    names: Seq<Seq<char>>,
    dir: Seq<char>,
    files: Seq<Seq<char>>,
    code: Seq<char>,
    location: Seq<char>,
    what: Seq<char>,
    k: int,
)
    requires
        0 <= k < files.len(),
        !names.contains(dir + "/"@ + files[k]),
    ensures
        missing_in_dir(names, dir, files, code, location, what).contains(
            issue_view(code, Severity::Error, "moodle_backup.xml"@, location, what + " is missing required file "@ + files[k]),
        ),
    decreases files.len(),
{
    let x = issue_view(code, Severity::Error, "moodle_backup.xml"@, location, what + " is missing required file "@ + files[k]);
    let r = missing_in_dir(names, dir, files, code, location, what);
    let prev = missing_in_dir(names, dir, files.drop_last(), code, location, what);
    if k == files.len() - 1 {
        assert(r.last() == x);
        assert(r[r.len() - 1] == x);
    } else {
        assert(files.drop_last()[k] == files[k]);
        lemma_missing_in_dir_has(names, dir, files.drop_last(), code, location, what, k);
        let j = choose|j: int| 0 <= j < prev.len() && prev[j] == x;
        assert(r[j] == x);
    }
}

proof fn lemma_activity_issues_has(m: ManifestView, acts: Seq<(Seq<char>, Seq<char>)>, names: Seq<Seq<char>>, k: int, x: IssueView)
    requires
        0 <= k < acts.len(),
        missing_in_dir(
            names,
            acts[k].0,
            required_activity_files(m, basename(acts[k].0)),
            codes::SHAPE_MISSING_ACTIVITY_FILE@,
            activity_location(acts[k].0),
            activity_what(acts[k].0, acts[k].1),
        ).contains(x),
    ensures
        activity_issues(m, acts, names).contains(x),
    decreases acts.len(),
{
    let a = acts.last();
    let prev = activity_issues(m, acts.drop_last(), names);
    let tail = missing_in_dir(
        names,
        a.0,
        required_activity_files(m, basename(a.0)),
        codes::SHAPE_MISSING_ACTIVITY_FILE@,
        activity_location(a.0),
        activity_what(a.0, a.1),
    );
    let r = activity_issues(m, acts, names);
    assert(r == prev + tail);
    if k == acts.len() - 1 {
        let j = choose|j: int| 0 <= j < tail.len() && tail[j] == x;
        assert(r[prev.len() + j] == x);
    } else {
        assert(acts.drop_last()[k] == acts[k]);
        lemma_activity_issues_has(m, acts.drop_last(), names, k, x);
        let j = choose|j: int| 0 <= j < prev.len() && prev[j] == x;
        assert(r[j] == x);
    }
}

/// Every manifest activity must hold `module.xml`, `roles.xml`,
/// `grades.xml` and `inforef.xml` in its directory, whatever the settings:
/// each one missing is reported as an error naming the activity and file.
pub proof fn law_activity_core_files_required(m: ManifestView, names: Seq<Seq<char>>, k: int, f: Seq<char>)
    requires
        0 <= k < m.activities.len(),
        f == "module.xml"@ || f == "roles.xml"@ || f == "grades.xml"@ || f == "inforef.xml"@,
        !names.contains(m.activities[k].0 + "/"@ + f),
    ensures
        shape_issues(m, names).contains(
            issue_view(
                codes::SHAPE_MISSING_ACTIVITY_FILE@,
                Severity::Error,
                "moodle_backup.xml"@,
                activity_location(m.activities[k].0),
                activity_what(m.activities[k].0, m.activities[k].1) + " is missing required file "@ + f,
            ),
        ),
{
    let dir = m.activities[k].0;
    let req = required_activity_files(m, basename(dir));
    let idx: int = if f == "module.xml"@ { 0 } else if f == "roles.xml"@ { 1 } else if f == "grades.xml"@ { 2 } else { 3 };
    assert(req[idx] == activity_always()[idx]);
    assert(req[idx] == f);
    lemma_missing_in_dir_has(
        names,
        dir,
        req,
        codes::SHAPE_MISSING_ACTIVITY_FILE@,
        activity_location(dir),
        activity_what(dir, m.activities[k].1),
        idx,
    );
    let x = issue_view(
        codes::SHAPE_MISSING_ACTIVITY_FILE@,
        Severity::Error,
        "moodle_backup.xml"@,
        activity_location(dir),
        activity_what(dir, m.activities[k].1) + " is missing required file "@ + f,
    );
    lemma_activity_issues_has(m, m.activities, names, k, x);
    let a = activity_issues(m, m.activities, names);
    let j = choose|j: int| 0 <= j < a.len() && a[j] == x;
    let all = shape_issues(m, names);
    assert(all == a + section_issues(m.sections, names) + root_always_issues(root_always(), names)
        + root_gated_issues(m.root, root_setting_gated(), names));
    assert(all[j] == x);
}

proof fn lemma_root_always_has(files: Seq<Seq<char>>, names: Seq<Seq<char>>, k: int)
    requires
        0 <= k < files.len(),
        !names.contains(files[k]),
    ensures
        root_always_issues(files, names).contains(
            issue_view(
                codes::SHAPE_MISSING_ROOT_FILE@,
                Severity::Error,
                "moodle_backup.xml"@,
                "/moodle_backup"@,
                "required root XML "@ + files[k] + " is missing from the archive"@,
            ),
        ),
    decreases files.len(),
{
    let x = issue_view(
        codes::SHAPE_MISSING_ROOT_FILE@,
        Severity::Error,
        "moodle_backup.xml"@,
        "/moodle_backup"@,
        "required root XML "@ + files[k] + " is missing from the archive"@,
    );
    let r = root_always_issues(files, names);
    let prev = root_always_issues(files.drop_last(), names);
    if k == files.len() - 1 {
        assert(r[r.len() - 1] == x);
    } else {
        assert(files.drop_last()[k] == files[k]);
        lemma_root_always_has(files.drop_last(), names, k);
        let j = choose|j: int| 0 <= j < prev.len() && prev[j] == x;
        assert(r[j] == x);
    }
}

/// The root XMLs every backup holds (groups, questions, roles, gradebook,
/// completion, scales, outcomes, files and moodle_backup): each one missing
/// from the archive is reported, whatever the manifest says.
pub proof fn law_root_core_files_required(m: ManifestView, names: Seq<Seq<char>>, f: Seq<char>)
    requires
        f == "groups.xml"@ || f == "questions.xml"@ || f == "roles.xml"@ || f == "gradebook.xml"@
            || f == "completion.xml"@ || f == "scales.xml"@ || f == "outcomes.xml"@ || f == "files.xml"@
            || f == "moodle_backup.xml"@,
        !names.contains(f),
    ensures
        shape_issues(m, names).contains(
            issue_view(
                codes::SHAPE_MISSING_ROOT_FILE@,
                Severity::Error,
                "moodle_backup.xml"@,
                "/moodle_backup"@,
                "required root XML "@ + f + " is missing from the archive"@,
            ),
        ),
{
    let files = root_always();
    let idx: int = if f == "groups.xml"@ { 0 } else if f == "questions.xml"@ { 1 } else if f == "roles.xml"@ { 2 }
        else if f == "gradebook.xml"@ { 3 } else if f == "completion.xml"@ { 4 } else if f == "scales.xml"@ { 5 }
        else if f == "outcomes.xml"@ { 6 } else if f == "files.xml"@ { 7 } else { 8 };
    assert(files[idx] == f);
    lemma_root_always_has(files, names, idx);
    let x = issue_view(
        codes::SHAPE_MISSING_ROOT_FILE@,
        Severity::Error,
        "moodle_backup.xml"@,
        "/moodle_backup"@,
        "required root XML "@ + f + " is missing from the archive"@,
    );
    let a = activity_issues(m, m.activities, names);
    let b = section_issues(m.sections, names);
    let c = root_always_issues(files, names);
    let j = choose|j: int| 0 <= j < c.len() && c[j] == x;
    let all = shape_issues(m, names);
    assert(all == a + b + c + root_gated_issues(m.root, root_setting_gated(), names));
    assert(all[a.len() + b.len() + j] == x);
}

/// The error for a missing users.xml while the root `users` setting is on.
pub open spec fn users_xml_issue() -> IssueView {
    issue_view(
        codes::SHAPE_MISSING_ROOT_FILE@,
        Severity::Error,
        "moodle_backup.xml"@,
        "/moodle_backup/.../setting[name=users]"@,
        "root setting users=1 implies users.xml should be present, but it is missing"@,
    )
}

proof fn lemma_missing_in_dir_code(
    names: Seq<Seq<char>>,
    dir: Seq<char>,
    files: Seq<Seq<char>>,
    code: Seq<char>,
    location: Seq<char>,
    what: Seq<char>,
)
    ensures
        forall|j: int| 0 <= j < missing_in_dir(names, dir, files, code, location, what).len()
            ==> (#[trigger] missing_in_dir(names, dir, files, code, location, what)[j]).code == code,
    decreases files.len(),
{
    if files.len() > 0 {
        lemma_missing_in_dir_code(names, dir, files.drop_last(), code, location, what);
    }
}

proof fn lemma_activity_issues_code(m: ManifestView, acts: Seq<(Seq<char>, Seq<char>)>, names: Seq<Seq<char>>)
    ensures
        forall|j: int| 0 <= j < activity_issues(m, acts, names).len() ==> (#[trigger] activity_issues(
            m,
            acts,
            names,
        )[j]).code == codes::SHAPE_MISSING_ACTIVITY_FILE@,
    decreases acts.len(),
{
    if acts.len() > 0 {
        let a = acts.last();
        lemma_activity_issues_code(m, acts.drop_last(), names);
        lemma_missing_in_dir_code(
            names,
            a.0,
            required_activity_files(m, basename(a.0)),
            codes::SHAPE_MISSING_ACTIVITY_FILE@,
            activity_location(a.0),
            activity_what(a.0, a.1),
        );
        let prev = activity_issues(m, acts.drop_last(), names);
        let r = activity_issues(m, acts, names);
        assert forall|j: int| 0 <= j < r.len() implies (#[trigger] r[j]).code == codes::SHAPE_MISSING_ACTIVITY_FILE@ by {
            if j >= prev.len() {
                assert(r[j] == missing_in_dir(
                    names,
                    a.0,
                    required_activity_files(m, basename(a.0)),
                    codes::SHAPE_MISSING_ACTIVITY_FILE@,
                    activity_location(a.0),
                    activity_what(a.0, a.1),
                )[j - prev.len()]);
            }
        }
    }
}

proof fn lemma_section_issues_code(secs: Seq<Seq<char>>, names: Seq<Seq<char>>)
    ensures
        forall|j: int| 0 <= j < section_issues(secs, names).len() ==> (#[trigger] section_issues(secs, names)[j]).code
            == codes::SHAPE_MISSING_SECTION_FILE@,
    decreases secs.len(),
{
    if secs.len() > 0 {
        let d = secs.last();
        lemma_section_issues_code(secs.drop_last(), names);
        lemma_missing_in_dir_code(
            names,
            d,
            section_always(),
            codes::SHAPE_MISSING_SECTION_FILE@,
            section_location(d),
            section_what(d),
        );
        let prev = section_issues(secs.drop_last(), names);
        let r = section_issues(secs, names);
        assert forall|j: int| 0 <= j < r.len() implies (#[trigger] r[j]).code == codes::SHAPE_MISSING_SECTION_FILE@ by {
            if j >= prev.len() {
                assert(r[j] == missing_in_dir(
                    names,
                    d,
                    section_always(),
                    codes::SHAPE_MISSING_SECTION_FILE@,
                    section_location(d),
                    section_what(d),
                )[j - prev.len()]);
            }
        }
    }
}

proof fn lemma_root_always_location(files: Seq<Seq<char>>, names: Seq<Seq<char>>)
    ensures
        forall|j: int| 0 <= j < root_always_issues(files, names).len() ==> (#[trigger] root_always_issues(files, names)[j]).location
            == "/moodle_backup"@,
    decreases files.len(),
{
    if files.len() > 0 {
        lemma_root_always_location(files.drop_last(), names);
    }
}

/// users.xml is required exactly by the root `users` setting: with the
/// setting on ("1" or "true" in any case, around spaces) and no users.xml in
/// the archive, the missing file is reported; with no `users` setting, or
/// with users.xml present, it never is.
pub proof fn law_users_xml_follows_users_setting(m: ManifestView, names: Seq<Seq<char>>)
    ensures
        !names.contains("users.xml"@) && (log_lookup(m.root, "users"@) matches Some(v) && (trim(v) == "1"@
            || trim(v) == "true"@ || trim(v) == "TRUE"@ || trim(v) == "True"@)) ==> shape_issues(m, names).contains(
            users_xml_issue(),
        ),
        (log_lookup(m.root, "users"@) is None || names.contains("users.xml"@)) ==> !shape_issues(m, names).contains(
            users_xml_issue(),
        ),
{
    reveal_strlit("1");
    reveal_strlit("true");
    reveal_strlit("TRUE");
    reveal_strlit("True");
    reveal_strlit("users");
    reveal_strlit("users.xml");
    reveal_strlit("badges");
    reveal_strlit("grade_histories");
    reveal_strlit("/moodle_backup");
    reveal_strlit("/moodle_backup/.../setting[name=");
    reveal_strlit("/moodle_backup/.../setting[name=users]");
    reveal_strlit("]");
    reveal_strlit("MBZ-SHAPE-MISSING-ROOT-FILE");
    reveal_strlit("MBZ-SHAPE-MISSING-ACTIVITY-FILE");
    reveal_strlit("MBZ-SHAPE-MISSING-SECTION-FILE");
    reveal_strlit("root setting ");
    reveal_strlit("=1 implies ");
    reveal_strlit(" should be present, but it is missing");
    reveal_strlit("root setting users=1 implies users.xml should be present, but it is missing");
    let g = root_setting_gated();
    let a = activity_issues(m, m.activities, names);
    let b = section_issues(m.sections, names);
    let c = root_always_issues(root_always(), names);
    let g1 = root_gated_issues(m.root, g.take(1), names);
    let g2 = root_gated_issues(m.root, g.take(2), names);
    let g3 = root_gated_issues(m.root, g, names);
    assert(g.take(1).drop_last() =~= Seq::<(Seq<char>, Seq<char>)>::empty());
    assert(g.take(2).drop_last() =~= g.take(1));
    assert(g.drop_last() =~= g.take(2));
    assert(g.take(1).last() == g[0]);
    assert(g.take(2).last() == g[1]);
    assert(root_gated_issues(m.root, Seq::empty(), names) == Seq::<IssueView>::empty());
    let all = shape_issues(m, names);
    assert(all == a + b + c + g3);
    let x = users_xml_issue();
    assert(x.location =~= "/moodle_backup/.../setting[name="@ + "users"@ + "]"@);
    assert(x.message =~= "root setting "@ + "users"@ + "=1 implies "@ + "users.xml"@ + " should be present, but it is missing"@);
    let on = log_lookup(m.root, "users"@) matches Some(v) && (trim(v) == "1"@ || trim(v) == "true"@ || trim(v) == "TRUE"@
        || trim(v) == "True"@);
    if !names.contains("users.xml"@) && on {
        let v = log_lookup(m.root, "users"@)->Some_0;
        assert(ascii_lower("TRUE"@) =~= "true"@);
        assert(ascii_lower("True"@) =~= "true"@);
        assert(ascii_lower("true"@) =~= "true"@);
        assert(ascii_lower("1"@) =~= "1"@);
        assert(is_on(log_lookup(m.root, "users"@)));
        assert(g1 == seq![x]);
        assert(g3[0] == x);
        assert(all[(a.len() + b.len() + c.len()) as int] == x);
    }
    if log_lookup(m.root, "users"@) is None || names.contains("users.xml"@) {
        assert(!is_on(None));
        assert(g1 == Seq::<IssueView>::empty());
        lemma_activity_issues_code(m, m.activities, names);
        lemma_section_issues_code(m.sections, names);
        lemma_root_always_location(root_always(), names);
        assert forall|j: int| 0 <= j < all.len() implies #[trigger] all[j] != x by {
            if j < a.len() {
                assert(all[j] == a[j]);
                assert(a[j].code.len() != x.code.len());
            } else if j < a.len() + b.len() {
                assert(all[j] == b[j - a.len()]);
                assert(b[j - a.len()].code.len() != x.code.len());
            } else if j < a.len() + b.len() + c.len() {
                assert(all[j] == c[j - a.len() - b.len()]);
                assert(c[j - a.len() - b.len()].location.len() != x.location.len());
            } else {
                let q = j - a.len() - b.len() - c.len();
                assert(all[j] == g3[q]);
                assert(g3[q].location.len() != x.location.len());
            }
        }
    }
}

} // verus!
