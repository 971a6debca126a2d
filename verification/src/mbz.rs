//! MBZ archive layer.
//!
//! Moodle MBZ files come in two physical formats: ZIP (random access through
//! the central directory) and TAR.GZ (sequential). Both are presented to the
//! scanner through the same name-and-bytes interface: the entry names in
//! archive order, and the contents of the XML entries. Opening the file and
//! decompressing entries is done by the caller; this module holds what was
//! read and answers the scanner's questions about it.

use vstd::prelude::*;
use crate::seqs::first_index;
use crate::text::{chars_view, chars_eq, chars_of, has_prefix, has_suffix, ends_with_str, push_chars, push_str, slice_chars, starts_with_str, string_of};

verus! {

/// The outcome of reading one entry of a ZIP archive: its bytes, or the
/// reader's error message.
pub struct EntryRead {
    pub name: String,
    pub data: Result<Vec<u8>, String>,
}

/// A ZIP-format MBZ: every entry name from the central directory, and the
/// read outcome of each XML entry.
pub struct ZipBacked {
    pub path: String,
    pub names: Vec<String>,
    pub reads: Vec<EntryRead>,
}

/// A TAR.GZ-format MBZ: every non-directory entry name in stream order, and
/// the contents of the XML entries captured during the single pass (a later
/// entry of the same name replaces an earlier one).
pub struct TarGzBacked {
    pub path: String,
    pub names: Vec<String>,
    pub xml: Vec<(String, Vec<u8>)>,
}

pub enum MbzArchive {
    Zip(ZipBacked),
    TarGz(TarGzBacked),
}

/// The physical format an MBZ is read as.
#[derive(PartialEq, Eq, Structural)]
pub enum ArchiveFormat {
    Zip,
    TarGz,
}

/// The character sequences of a list of strings.
pub open spec fn names_view(v: Seq<String>) -> Seq<Seq<char>> {
    v.map_values(|s: String| s@)
}

/// Entry names the scanner treats as XML documents.
pub open spec fn is_xml_name(n: Seq<char>) -> bool {
    has_suffix(n, ".xml"@) && !has_suffix(n, "/"@)
}

/// `is_xml_name` as a predicate value.
pub open spec fn xml_pred() -> spec_fn(Seq<char>) -> bool {
    |n: Seq<char>| is_xml_name(n)
}

/// The XML entry names, in archive order.
pub open spec fn xml_names_of(names: Seq<Seq<char>>) -> Seq<Seq<char>> {
    names.filter(xml_pred())
}

/// A ZIP read outcome for entry `name`.
pub open spec fn read_named(name: Seq<char>) -> spec_fn(EntryRead) -> bool {
    |r: EntryRead| r.name@ == name
}

/// A captured TAR entry named `name`.
pub open spec fn capture_named(name: Seq<char>) -> spec_fn((String, Vec<u8>)) -> bool {
    |p: (String, Vec<u8>)| p.0@ == name
}

/// Index of the last element of `s` satisfying `p`.
pub open spec fn last_index<T>(s: Seq<T>, p: spec_fn(T) -> bool) -> Option<int>
    decreases s.len(),
{
    if s.len() == 0 {
        None
    } else if p(s.last()) {
        Some(s.len() - 1)
    } else {
        last_index(s.drop_last(), p)
    }
}

/// The message for a ZIP entry that is not in the archive.
pub open spec fn zip_missing_message(name: Seq<char>, path: Seq<char>) -> Seq<char> {
    "entry "@ + name + " not found in "@ + path + ": specified file not found in archive"@
}

/// The message for a TAR.GZ entry that was not captured.
pub open spec fn tar_missing_message(name: Seq<char>, path: Seq<char>) -> Seq<char> {
    "entry "@ + name + " not found (or not XML) in "@ + path
}

impl MbzArchive {
    /// The archive's entry names, in archive order.
    pub open spec fn entry_names(&self) -> Seq<Seq<char>> {
        match self {
            MbzArchive::Zip(z) => names_view(z.names@),
            MbzArchive::TarGz(t) => names_view(t.names@),
        }
    }

    /// The archive's path.
    pub open spec fn path_chars(&self) -> Seq<char> {
        match self {
            MbzArchive::Zip(z) => z.path@,
            MbzArchive::TarGz(t) => t.path@,
        }
    }

    /// What reading entry `name` gives: its bytes or an error message.
    pub open spec fn read_spec(&self, name: Seq<char>) -> Result<Seq<u8>, Seq<char>> {
        match self {
            MbzArchive::Zip(z) => match first_index(z.reads@, read_named(name)) {
                Some(i) => match z.reads@[i].data {
                    Ok(b) => Ok(b@),
                    Err(e) => Err(e@),
                },
                None => Err(zip_missing_message(name, z.path@)),
            },
            MbzArchive::TarGz(t) => match last_index(t.xml@, capture_named(name)) {
                Some(i) => Ok(t.xml@[i].1@),
                None => Err(tar_missing_message(name, t.path@)),
            },
        }
    }

    pub fn path(&self) -> (r: &str)
        ensures
            r@ == self.path_chars(),
    {
        match self {
            MbzArchive::Zip(z) => z.path.as_str(),
            MbzArchive::TarGz(t) => t.path.as_str(),
        }
    }

    pub fn names(&self) -> (r: &[String])
        ensures
            names_view(r@) == self.entry_names(),
    {
        match self {
            MbzArchive::Zip(z) => z.names.as_slice(),
            MbzArchive::TarGz(t) => t.names.as_slice(),
        }
    }

    /// Entry names ending in `.xml`, in archive order.
    pub fn xml_names(&self) -> (r: Vec<String>)
        ensures
            names_view(r@) == xml_names_of(self.entry_names()),
    {
        let names = self.names();
        let ghost all = self.entry_names();
        let mut out: Vec<String> = Vec::new();
        let mut i: usize = 0;
        while i < names.len()
            invariant
                i <= names@.len(),
                names_view(names@) == all,
                names_view(out@) == all.take(i as int).filter(xml_pred()),
            decreases names@.len() - i,
        {
            let n = chars_of(names[i].as_str());
            let keep = ends_with_str(n.as_slice(), ".xml") && !ends_with_str(n.as_slice(), "/");
            assert(all.take(i as int + 1).drop_last() =~= all.take(i as int));
            assert(all[i as int] == names@[i as int]@);
            assert(all.take(i as int + 1).last() == all[i as int]);
            assert(all.take(i as int + 1).filter(xml_pred()) == (if is_xml_name(all[i as int]) {
                all.take(i as int).filter(xml_pred()).push(all[i as int])
            } else {
                all.take(i as int).filter(xml_pred())
            })) by {
                reveal(Seq::filter);
            }
            if keep {
                out.push(names[i].clone());
                assert(names_view(out@) =~= all.take(i as int).filter(xml_pred()).push(names@[i as int]@));
            } else {
                assert(names_view(out@) =~= all.take(i as int).filter(xml_pred()));
            }
            i += 1;
        }
        assert(all.take(names@.len() as int) =~= all);
        out
    }

    /// Whether an entry of exactly this name exists.
    pub fn has(&self, name: &str) -> (r: bool)
        ensures
            r == self.entry_names().contains(name@),
    {
        let names = self.names();
        let ghost all = self.entry_names();
        let target = chars_of(name);
        let mut i: usize = 0;
        while i < names.len()
            invariant
                i <= names@.len(),
                names_view(names@) == all,
                all == self.entry_names(),
                target@ == name@,
                forall|j: int| 0 <= j < i ==> all[j] != name@,
            decreases names@.len() - i,
        {
            let n = chars_of(names[i].as_str());
            if chars_eq(n.as_slice(), target.as_slice()) {
                assert(all[i as int] == names@[i as int]@);
                assert(all[i as int] == name@);
                assert(all.contains(name@));
                return true;
            }
            i += 1;
        }
        assert forall|j: int| 0 <= j < all.len() implies all[j] != name@ by {}
        false
    }

    /// The bytes of entry `name`, or the message explaining why they could
    /// not be had.
    pub fn read_to_vec(&self, name: &str) -> (r: Result<Vec<u8>, String>)
        ensures
            match (r, self.read_spec(name@)) {
                (Ok(b), Ok(s)) => b@ == s,
                (Err(e), Err(s)) => e@ == s,
                _ => false,
            },
    {
        let target = chars_of(name);
        match self {
            MbzArchive::Zip(z) => {
                let mut i: usize = 0;
                while i < z.reads.len()
                    invariant
                        i <= z.reads@.len(),
                        *self == MbzArchive::Zip(*z),
                        target@ == name@,
                        forall|j: int| 0 <= j < i ==> z.reads@[j].name@ != name@,
                    decreases z.reads@.len() - i,
                {
                    let n = chars_of(z.reads[i].name.as_str());
                    if chars_eq(n.as_slice(), target.as_slice()) {
                        proof {
                            crate::seqs::lemma_first_index(z.reads@, read_named(name@), i as int);
                        }
                        return match &z.reads[i].data {
                            Ok(b) => Ok(copy_bytes(b.as_slice())),
                            Err(e) => Err(e.clone()),
                        };
                    }
                    i += 1;
                }
                proof {
                    crate::seqs::lemma_first_index(z.reads@, read_named(name@), i as int);
                }
                let mut m = chars_of("entry ");
                push_chars(&mut m, target.as_slice());
                push_str(&mut m, " not found in ");
                push_str(&mut m, z.path.as_str());
                push_str(&mut m, ": specified file not found in archive");
                Err(string_of(m.as_slice()))
            },
            MbzArchive::TarGz(t) => {
                let mut i: usize = t.xml.len();
                assert(t.xml@.take(i as int) =~= t.xml@);
                while i > 0
                    invariant
                        i <= t.xml@.len(),
                        *self == MbzArchive::TarGz(*t),
                        target@ == name@,
                        last_index(t.xml@, capture_named(name@)) == last_index(
                            t.xml@.take(i as int),
                            capture_named(name@),
                        ),
                    decreases i,
                {
                    let n = chars_of(t.xml[i - 1].0.as_str());
                    assert(t.xml@.take(i as int).last() == t.xml@[i - 1]);
                    if chars_eq(n.as_slice(), target.as_slice()) {
                        return Ok(copy_bytes(t.xml[i - 1].1.as_slice()));
                    }
                    assert(t.xml@.take(i as int).drop_last() =~= t.xml@.take(i - 1));
                    i -= 1;
                }
                let mut m = chars_of("entry ");
                push_chars(&mut m, target.as_slice());
                push_str(&mut m, " not found (or not XML) in ");
                push_str(&mut m, t.path.as_str());
                Err(string_of(m.as_slice()))
            },
        }
    }
}

impl MbzArchive {
    /// The entry names as character vectors, in archive order.
    pub fn name_chars(&self) -> (r: Vec<Vec<char>>)
        ensures
            chars_view(r@) == self.entry_names(),
    {
        let names = self.names();
        let mut out: Vec<Vec<char>> = Vec::new();
        let mut i: usize = 0;
        while i < names.len()
            invariant
                i <= names@.len(),
                out@.len() == i,
                chars_view(out@) == names_view(names@).take(i as int),
            decreases names@.len() - i,
        {
            let c = chars_of(names[i].as_str());
            assert(c@ == names_view(names@)[i as int]);
            out.push(c);
            i += 1;
            assert(chars_view(out@) =~= names_view(names@).take(i as int));
        }
        assert(names_view(names@).take(names@.len() as int) =~= names_view(names@));
        out
    }
}

/// A copy of a byte slice.
fn copy_bytes(b: &[u8]) -> (r: Vec<u8>)
    ensures
        r@ == b@,
{
    let mut r: Vec<u8> = Vec::new();
    let mut i: usize = 0;
    while i < b.len()
        invariant
            i <= b@.len(),
            r@ == b@.take(i as int),
        decreases b@.len() - i,
    {
        r.push(b[i]);
        i += 1;
        assert(r@ =~= b@.take(i as int));
    }
    assert(b@.take(b@.len() as int) =~= b@);
    r
}

/// Archives starting with the gzip magic bytes are read as TAR.GZ; anything
/// else as ZIP (a non-ZIP file then fails in the ZIP reader).
pub fn format_of(magic: &[u8]) -> (f: ArchiveFormat)
    ensures
        f == (if magic@.len() >= 2 && magic@[0] == 0x1fu8 && magic@[1] == 0x8bu8 {
            ArchiveFormat::TarGz
        } else {
            ArchiveFormat::Zip
        }),
{
    if magic.len() >= 2 && magic[0] == 0x1f && magic[1] == 0x8b {
        ArchiveFormat::TarGz
    } else {
        ArchiveFormat::Zip
    }
}

/// A TAR entry path with the leading `./` that some writers prepend removed.
pub fn tar_entry_name(raw: &str) -> (r: String)
    ensures
        r@ == (if has_prefix(raw@, "./"@) { raw@.skip(2) } else { raw@ }),
{
    let c = chars_of(raw);
    proof {
        reveal_strlit("./");
    }
    if starts_with_str(c.as_slice(), "./") {
        let rest = slice_chars(c.as_slice(), 2, c.len());
        string_of(rest.as_slice())
    } else {
        string_of(c.as_slice())
    }
}

/// Whether a TAR entry's contents are kept (XML entries only).
pub fn keeps_contents(name: &str) -> (r: bool)
    ensures
        r == has_suffix(name@, ".xml"@),
{
    let c = chars_of(name);
    ends_with_str(c.as_slice(), ".xml")
}

} // verus!
