//! The archive codec: a payload tree becomes either a self-extracting
//! artifact (launcher text, a marker line, then a gzip-compressed tar
//! stream) or a plain zip archive, and both encodings extract back to the
//! tree — the plain archive with its blanket executable permission bit on
//! every file entry.  The compressed streams are produced and read by the
//! flate2, tar and zip crates behind trusted wrappers; what they produce
//! is named `targz_of` and `zip_of`, and reading is trusted to invert
//! writing.

use vstd::prelude::*;
use vstd::utf8::encode_utf8;
use crate::payload::{clean_path, tree_view, valid_tree, EntryV, PayloadEntry};
use crate::strings::lemma_encode_utf8_concat;
use vstd::string::StrSliceExecFns;
use vstd::string::StringSliceAdditionalSpecFns;
use std::io::Read;
use std::io::Write;

verus! {

/// One stored archive member, as the stream carries it: a name, the full
/// POSIX mode bits, and contents (`None` for a directory).
pub struct RawEntry {
    pub name: String,
    pub mode: u32,
    pub data: Option<Vec<u8>>,
}

/// The mathematical value of a stored member.
pub type RawV = (Seq<char>, u32, Option<Seq<u8>>);

impl View for RawEntry {
    type V = RawV;

    open spec fn view(&self) -> RawV {
        (
            self.name@,
            self.mode,
            match &self.data {
                Option::Some(d) => Option::Some(d@),
                Option::None => Option::None,
            },
        )
    }
}

pub open spec fn raws_view(s: Seq<RawEntry>) -> Seq<RawV> {
    s.map_values(|e: RawEntry| e@)
}

/// The gzip-compressed tar stream holding the given members in order.
pub uninterp spec fn targz_of(entries: Seq<RawV>) -> Seq<u8>;

/// The zip archive holding the given members in order, as this build's
/// writer produces it (the writer stamps the archive with its compile
/// target's system tag, so the bytes belong to this build).
pub uninterp spec fn zip_of(entries: Seq<RawV>) -> Seq<u8>;

/// Members the tar writer stores verbatim: clean names and mode bits
/// that fit the header's octal field.
pub open spec fn tar_entries_ok(s: Seq<RawV>) -> bool {
    forall|i: int|
        0 <= i < s.len() ==> clean_path((#[trigger] s[i]).0) && s[i].1 < 0o10000000
}

/// Members the zip writer stores verbatim.  The writer keeps only the
/// permission bits of a mode and adds the type bit itself, so a mode must
/// be exactly the type bit plus permissions; directory names end with a
/// slash; names fit the name-length field and never repeat; and contents
/// stay far enough below the format's size field that even an
/// incompressible deflate stream fits.
pub open spec fn zip_entries_ok(s: Seq<RawV>) -> bool {
    &&& forall|i: int|
        0 <= i < s.len() ==> match (#[trigger] s[i]).2 {
            Option::Some(d) => clean_path(s[i].0) && 0o100000 <= s[i].1 <= 0o100777 && d.len()
                < 0xF000_0000 && encode_utf8(s[i].0).len() < 0xFFFF,
            Option::None => s[i].0.len() >= 2 && s[i].0.last() == '/' && clean_path(
                s[i].0.take(s[i].0.len() - 1),
            ) && 0o40000 <= s[i].1 <= 0o40777 && encode_utf8(s[i].0).len() < 0xFFFF,
        }
    &&& forall|i: int, j: int|
        0 <= i < s.len() && 0 <= j < s.len() && i != j ==> (#[trigger] s[i]).0 != (
        #[trigger] s[j]).0
}

/// Relies on flate2's GzEncoder and tar's Builder: members are appended
/// in order with the given name, mode and contents, zero metadata
/// otherwise, and the stream is a function of the members alone.
#[verifier::external_body]
fn targz_pack(entries: &Vec<RawEntry>) -> (r: Option<Vec<u8>>)
    ensures
        r is Some ==> r->0@ == targz_of(raws_view(entries@)),
        tar_entries_ok(raws_view(entries@)) ==> r is Some,
{
    let enc = flate2::write::GzEncoder::new(Vec::new(), flate2::Compression::default());
    let mut b = tar::Builder::new(enc);
    for e in entries.iter() {
        let mut h = tar::Header::new_gnu();
        h.set_mode(e.mode);
        let (ty, size) = match &e.data {
            None => (tar::EntryType::dir(), 0),
            Some(d) => (tar::EntryType::file(), d.len() as u64),
        };
        h.set_entry_type(ty);
        h.set_size(size);
        let body = e.data.as_deref().unwrap_or(&[]);
        b.append_data(&mut h, &e.name, body).ok()?;
    }
    b.into_inner().ok()?.finish().ok()
}

/// Relies on flate2's GzDecoder and tar's Archive: reading a stream the
/// packer wrote yields the packed members, in order, unchanged.
#[verifier::external_body]
fn targz_unpack(bytes: &[u8]) -> (r: Option<Vec<RawEntry>>)
    ensures
        forall|es: Seq<RawV>|
            tar_entries_ok(es) && bytes@ == targz_of(es) ==> r is Some && raws_view(r->0@) == es,
{
    let mut ar = tar::Archive::new(flate2::read::GzDecoder::new(bytes));
    let mut out: Vec<RawEntry> = Vec::new();
    for ent in ar.entries().ok()? {
        let mut ent = ent.ok()?;
        let name = String::from_utf8(ent.path_bytes().to_vec()).ok()?;
        let mode = ent.header().mode().ok()?;
        let data = if ent.header().entry_type().is_dir() { None } else {
            let mut d = Vec::new();
            ent.read_to_end(&mut d).ok()?;
            Some(d)
        };
        out.push(RawEntry { name, mode, data });
    }
    Some(out)
}

/// Relies on zip's ZipWriter: members are appended in order, deflated,
/// with a fixed timestamp.  The writer keeps a mode's permission bits and
/// adds the file or directory type bit itself, which is why accepted
/// members carry exactly that shape and nothing more.
#[verifier::external_body]
fn zip_pack(entries: &Vec<RawEntry>) -> (r: Option<Vec<u8>>)
    ensures
        r is Some ==> r->0@ == zip_of(raws_view(entries@)),
        zip_entries_ok(raws_view(entries@)) ==> r is Some,
{
    let mut zw = zip::ZipWriter::new(std::io::Cursor::new(Vec::new()));
    for e in entries.iter() {
        let opts = zip::write::SimpleFileOptions::default().compression_method(
            zip::CompressionMethod::Deflated,
        ).unix_permissions(e.mode).last_modified_time(zip::DateTime::DEFAULT);
        match &e.data {
            None => zw.add_directory(e.name.as_str(), opts).ok()?,
            Some(d) => zw.start_file(e.name.as_str(), opts).and_then(
                |_| Ok(zw.write_all(d.as_slice())?),
            ).ok()?,
        }
    }
    Some(zw.finish().ok()?.into_inner())
}

/// Relies on zip's ZipArchive: reading an archive the packer wrote
/// yields the packed members, in order, unchanged.
#[verifier::external_body]
fn zip_unpack(bytes: &[u8]) -> (r: Option<Vec<RawEntry>>)
    ensures
        forall|es: Seq<RawV>|
            zip_entries_ok(es) && bytes@ == zip_of(es) ==> r is Some && raws_view(r->0@) == es,
{
    let mut ar = zip::ZipArchive::new(std::io::Cursor::new(bytes)).ok()?;
    let mut out: Vec<RawEntry> = Vec::new();
    for i in 0..ar.len() {
        let mut f = ar.by_index(i).ok()?;
        let name = f.name().to_string();
        let mode = f.unix_mode().unwrap_or(0);
        let data = if f.is_dir() { None } else {
            let mut d = Vec::new();
            f.read_to_end(&mut d).ok()?;
            Some(d)
        };
        out.push(RawEntry { name, mode, data });
    }
    Some(out)
}

/// How a payload entry is stored in the tar stream: directories carry
/// mode 40755, executables 100755, other files 100644.
pub open spec fn tar_raw_of(e: EntryV) -> RawV {
    match e.1 {
        Option::None => (e.0, 0o40755u32, Option::None),
        Option::Some(fd) => (
            e.0,
            if fd.1 {
                0o100755u32
            } else {
                0o100644u32
            },
            Option::Some(fd.0),
        ),
    }
}

pub open spec fn tar_raws(tv: Seq<EntryV>) -> Seq<RawV> {
    tv.map_values(|e: EntryV| tar_raw_of(e))
}

/// How a payload entry is stored in the plain archive: a directory's
/// stored name gains a trailing slash, and every file entry is tagged
/// with the portable executable permission bit, whatever its flag.
pub open spec fn zip_raw_of(e: EntryV) -> RawV {
    match e.1 {
        Option::None => (e.0.push('/'), 0o40755u32, Option::None),
        Option::Some(fd) => (e.0, 0o100755u32, Option::Some(fd.0)),
    }
}

pub open spec fn zip_raws(tv: Seq<EntryV>) -> Seq<RawV> {
    tv.map_values(|e: EntryV| zip_raw_of(e))
}

/// A stored member read back as a payload entry; a file is executable
/// when its owner-execute mode bit is set.
pub open spec fn payload_of_tar_raw(r: RawV) -> EntryV {
    match r.2 {
        Option::None => (r.0, Option::None),
        Option::Some(d) => (r.0, Option::Some((d, (r.1 / 64) % 2 == 1))),
    }
}

pub open spec fn payload_of_tar_raws(s: Seq<RawV>) -> Seq<EntryV> {
    s.map_values(|r: RawV| payload_of_tar_raw(r))
}

/// As for tar, except that a directory's trailing slash is dropped.
pub open spec fn payload_of_zip_raw(r: RawV) -> EntryV {
    match r.2 {
        Option::None => (
            if r.0.len() >= 1 && r.0.last() == '/' {
                r.0.take(r.0.len() - 1)
            } else {
                r.0
            },
            Option::None,
        ),
        Option::Some(d) => payload_of_tar_raw(r),
    }
}

pub open spec fn payload_of_zip_raws(s: Seq<RawV>) -> Seq<EntryV> {
    s.map_values(|r: RawV| payload_of_zip_raw(r))
}

/// A tree as the plain archive hands it back: paths and contents are
/// unchanged, and every file is marked executable, since the blanket
/// stored bit cannot remember the original flags.
pub open spec fn blanket_exec(tv: Seq<EntryV>) -> Seq<EntryV> {
    tv.map_values(
        |e: EntryV|
            match e.1 {
                Option::None => e,
                Option::Some(fd) => (e.0, Option::Some((fd.0, true))),
            },
    )
}

/// Storing a tree and reading it back is the identity for the tar
/// stream; the plain archive gives the tree back with every file marked
/// executable, its blanket permission bit.
pub proof fn lemma_raw_round_trip(tv: Seq<EntryV>)
    ensures
        payload_of_tar_raws(tar_raws(tv)) == tv,
        payload_of_zip_raws(zip_raws(tv)) == blanket_exec(tv),
{
    assert forall|i: int| 0 <= i < tv.len() implies payload_of_tar_raw(tar_raw_of(#[trigger] tv[i]))
        == tv[i] && payload_of_zip_raw(zip_raw_of(tv[i])) == blanket_exec(tv)[i] by {
        let e = tv[i];
        match e.1 {
            Option::None => {
                assert(e.0.push('/').last() == '/');
                assert(e.0.push('/').take(e.0.push('/').len() - 1) =~= e.0);
            },
            Option::Some(fd) => {
                if fd.1 {
                    assert((0o100755u32 / 64) % 2 == 1);
                } else {
                    assert((0o100644u32 / 64) % 2 == 0);
                }
                assert((0o100755u32 / 64) % 2 == 1);
            },
        }
    }
    assert(payload_of_tar_raws(tar_raws(tv)) =~= tv);
    assert(payload_of_zip_raws(zip_raws(tv)) =~= blanket_exec(tv));
}

/// A valid tree maps to members both writers accept.
pub proof fn lemma_valid_tree_raws(tv: Seq<EntryV>)
    requires
        valid_tree(tv),
    ensures
        tar_entries_ok(tar_raws(tv)),
        zip_entries_ok(zip_raws(tv)),
{
    assert forall|i: int| 0 <= i < tv.len() implies ({
        let t = #[trigger] tar_raws(tv)[i];
        clean_path(t.0) && t.1 < 0o10000000
    }) by {
        assert(tar_raws(tv)[i] == tar_raw_of(tv[i]));
    }
    assert forall|i: int| 0 <= i < tv.len() implies ({
        let z = #[trigger] zip_raws(tv)[i];
        match z.2 {
            Option::Some(d) => clean_path(z.0) && 0o100000 <= z.1 <= 0o100777 && d.len()
                < 0xF000_0000 && encode_utf8(z.0).len() < 0xFFFF,
            Option::None => z.0.len() >= 2 && z.0.last() == '/' && clean_path(
                z.0.take(z.0.len() - 1),
            ) && 0o40000 <= z.1 <= 0o40777 && encode_utf8(z.0).len() < 0xFFFF,
        }
    }) by {
        assert(zip_raws(tv)[i] == zip_raw_of(tv[i]));
        let e = tv[i];
        assert(clean_path(e.0) && encode_utf8(e.0).len() + 1 < 0xFFFF);
        match e.1 {
            Option::None => {
                let z = zip_raw_of(e);
                assert(z.0 == e.0.push('/'));
                assert(z.0.len() == e.0.len() + 1 >= 2);
                assert(z.0.take(z.0.len() - 1) =~= e.0);
                assert(e.0.push('/') =~= e.0 + seq!['/']);
                lemma_encode_utf8_concat(e.0, seq!['/']);
                assert(encode_utf8(seq!['/']).len() == 1) by {
                    let s = seq!['/'];
                    assert(s[0] == '/');
                    assert(s.drop_first() =~= Seq::<char>::empty());
                    assert('/' as u32 == 47);
                    assert(vstd::utf8::has_width_1_encoding(47));
                    assert(vstd::utf8::encode_scalar(47).len() == 1);
                    assert(encode_utf8(s) == vstd::utf8::encode_scalar(s[0] as u32) + encode_utf8(
                        s.drop_first(),
                    ));
                    assert(encode_utf8(Seq::<char>::empty()).len() == 0);
                }
            },
            Option::Some(fd) => {
                assert(0o100000 <= 0o100755u32 <= 0o100777);
            },
        }
    }
    assert forall|i: int, j: int|
        0 <= i < tv.len() && 0 <= j < tv.len() && i != j implies (#[trigger] zip_raws(tv)[i]).0 != (
    #[trigger] zip_raws(tv)[j]).0 by {
        assert(zip_raws(tv)[i] == zip_raw_of(tv[i]));
        assert(zip_raws(tv)[j] == zip_raw_of(tv[j]));
        let a = tv[i];
        let b = tv[j];
        assert(a.0 != b.0);
        assert(clean_path(a.0) && clean_path(b.0));
        match (a.1, b.1) {
            (Option::None, Option::None) => {
                if a.0.push('/') == b.0.push('/') {
                    assert(a.0 =~= b.0) by {
                        assert(a.0.push('/').take(a.0.len() as int) =~= a.0);
                        assert(b.0.push('/').take(b.0.len() as int) =~= b.0);
                    }
                }
            },
            (Option::None, Option::Some(_)) => {
                if a.0.push('/') == b.0 {
                    assert(b.0.last() == '/');
                    assert(b.0[b.0.len() - 1] == '/');
                }
            },
            (Option::Some(_), Option::None) => {
                if b.0.push('/') == a.0 {
                    assert(a.0.last() == '/');
                    assert(a.0[a.0.len() - 1] == '/');
                }
            },
            (Option::Some(_), Option::Some(_)) => {},
        }
    }
}

fn clone_bytes(v: &Vec<u8>) -> (r: Vec<u8>)
    ensures
        r@ == v@,
{
    vstd::slice::slice_to_vec(v.as_slice())
}

/// Lay a tree out as tar members.
fn to_tar_raws(tree: &Vec<PayloadEntry>) -> (r: Vec<RawEntry>)
    ensures
        raws_view(r@) == tar_raws(tree_view(tree@)),
{
    let n = tree.len();
    let mut out: Vec<RawEntry> = Vec::new();
    let mut k: usize = 0;
    while k < n
        invariant
            n == tree@.len(),
            0 <= k <= n,
            raws_view(out@) =~= tar_raws(tree_view(tree@)).take(k as int),
        decreases n - k,
    {
        let e = match &tree[k] {
            PayloadEntry::Dir { path } => RawEntry {
                name: path.clone(),
                mode: 0o40755,
                data: None,
            },
            PayloadEntry::File { path, data, executable } => RawEntry {
                name: path.clone(),
                mode: if *executable {
                    0o100755
                } else {
                    0o100644
                },
                data: Some(clone_bytes(data)),
            },
        };
        assert(e@ == tar_raw_of(tree_view(tree@)[k as int]));
        let ghost old_out = out@;
        out.push(e);
        proof {
            assert(raws_view(out@) =~= raws_view(old_out).push(e@));
            assert(tar_raws(tree_view(tree@)).take(k + 1) =~= tar_raws(tree_view(tree@)).take(k as int).push(
                tar_raw_of(tree_view(tree@)[k as int]),
            ));
        }
        k = k + 1;
    }
    assert(raws_view(out@) =~= tar_raws(tree_view(tree@)));
    out
}

/// Lay a tree out as zip members; a directory's stored name gains a
/// trailing slash.
fn to_zip_raws(tree: &Vec<PayloadEntry>) -> (r: Vec<RawEntry>)
    ensures
        raws_view(r@) == zip_raws(tree_view(tree@)),
{
    let n = tree.len();
    let mut out: Vec<RawEntry> = Vec::new();
    let mut k: usize = 0;
    while k < n
        invariant
            n == tree@.len(),
            0 <= k <= n,
            raws_view(out@) =~= zip_raws(tree_view(tree@)).take(k as int),
        decreases n - k,
    {
        let e = match &tree[k] {
            PayloadEntry::Dir { path } => {
                let mut nm = path.clone();
                nm.append("/");
                proof {
                    reveal_strlit("/");
                    assert(nm@ =~= path@.push('/'));
                }
                RawEntry { name: nm, mode: 0o40755, data: None }
            },
            PayloadEntry::File { path, data, executable } => RawEntry {
                name: path.clone(),
                mode: 0o100755,
                data: Some(clone_bytes(data)),
            },
        };
        assert(e@ == zip_raw_of(tree_view(tree@)[k as int]));
        let ghost old_out = out@;
        out.push(e);
        proof {
            assert(raws_view(out@) =~= raws_view(old_out).push(e@));
            assert(zip_raws(tree_view(tree@)).take(k + 1) =~= zip_raws(tree_view(tree@)).take(k as int).push(
                zip_raw_of(tree_view(tree@)[k as int]),
            ));
        }
        k = k + 1;
    }
    assert(raws_view(out@) =~= zip_raws(tree_view(tree@)));
    out
}

/// Read tar members back as a tree.
fn tree_of_tar_raws(raws: &Vec<RawEntry>) -> (r: Vec<PayloadEntry>)
    ensures
        tree_view(r@) == payload_of_tar_raws(raws_view(raws@)),
{
    let n = raws.len();
    let mut out: Vec<PayloadEntry> = Vec::new();
    let mut k: usize = 0;
    while k < n
        invariant
            n == raws@.len(),
            0 <= k <= n,
            tree_view(out@) =~= payload_of_tar_raws(raws_view(raws@)).take(k as int),
        decreases n - k,
    {
        let re = &raws[k];
        let e = match &re.data {
            Option::None => PayloadEntry::Dir { path: re.name.clone() },
            Option::Some(d) => PayloadEntry::File {
                path: re.name.clone(),
                data: clone_bytes(d),
                executable: (re.mode / 64) % 2 == 1,
            },
        };
        assert(e@ == payload_of_tar_raw(raws_view(raws@)[k as int]));
        let ghost old_out = out@;
        out.push(e);
        proof {
            assert(tree_view(out@) =~= tree_view(old_out).push(e@));
            assert(payload_of_tar_raws(raws_view(raws@)).take(k + 1) =~= payload_of_tar_raws(raws_view(raws@)).take(k as int).push(
                payload_of_tar_raw(raws_view(raws@)[k as int]),
            ));
        }
        k = k + 1;
    }
    assert(tree_view(out@) =~= payload_of_tar_raws(raws_view(raws@)));
    out
}

/// Read zip members back as a tree; a directory's trailing slash is
/// dropped.
fn tree_of_zip_raws(raws: &Vec<RawEntry>) -> (r: Vec<PayloadEntry>)
    ensures
        tree_view(r@) == payload_of_zip_raws(raws_view(raws@)),
{
    let n = raws.len();
    let mut out: Vec<PayloadEntry> = Vec::new();
    let mut k: usize = 0;
    while k < n
        invariant
            n == raws@.len(),
            0 <= k <= n,
            tree_view(out@) =~= payload_of_zip_raws(raws_view(raws@)).take(k as int),
        decreases n - k,
    {
        let re = &raws[k];
        let e = match &re.data {
            Option::None => {
                let cn = re.name.as_str().unicode_len();
                let path = if cn >= 1 && re.name.as_str().get_char(cn - 1) == '/' {
                    String::from_str(re.name.as_str().substring_char(0, cn - 1))
                } else {
                    re.name.clone()
                };
                proof {
                    if re.name@.len() >= 1 && re.name@.last() == '/' {
                        assert(path@ =~= re.name@.take(re.name@.len() - 1));
                    }
                }
                PayloadEntry::Dir { path }
            },
            Option::Some(d) => PayloadEntry::File {
                path: re.name.clone(),
                data: clone_bytes(d),
                executable: (re.mode / 64) % 2 == 1,
            },
        };
        assert(e@ == payload_of_zip_raw(raws_view(raws@)[k as int]));
        let ghost old_out = out@;
        out.push(e);
        proof {
            assert(tree_view(out@) =~= tree_view(old_out).push(e@));
            assert(payload_of_zip_raws(raws_view(raws@)).take(k + 1) =~= payload_of_zip_raws(raws_view(raws@)).take(k as int).push(
                payload_of_zip_raw(raws_view(raws@)[k as int]),
            ));
        }
        k = k + 1;
    }
    assert(tree_view(out@) =~= payload_of_zip_raws(raws_view(raws@)));
    out
}

} // verus!


verus! {

/// The line separating the launcher text from the compressed payload.
pub const PAYLOAD_MARKER: &'static str = "__PAYLOAD_BEGINS__";

/// The launcher: the bootstrap text a self-extracting artifact starts
/// with.  Its last line is the payload marker.
pub const LAUNCHER_TEXT: &'static str = "#!/bin/sh\n# rustpack self-extracting artifact.\n# Everything after the marker line at the end of this launcher is a\n# gzip-compressed tar stream of the payload tree.\n\nPAYLOAD_LINE=$(awk '/^__PAYLOAD_BEGINS__$/ { print NR + 1; exit 0; }' \"$0\")\nTEMP_DIR=$(mktemp -d 2>/dev/null || mktemp -d -t rustpack)\ntail -n+\"$PAYLOAD_LINE\" \"$0\" | tar xzf - -C \"$TEMP_DIR\"\nINFO=\"$TEMP_DIR/rustpack/info.json\"\n\nif [ \"$1\" = \"--check-updates\" ]; then\n    CURRENT_VERSION=$(sed -n 's/.*,\"version\":\"\\([^\"]*\\)\".*/\\1/p' \"$INFO\" | head -n 1)\n    UPDATE_URL=$(sed -n 's/.*\"update_url\":\"\\([^\"]*\\)\".*/\\1/p' \"$INFO\" | head -n 1)\n    rm -rf \"$TEMP_DIR\"\n    if [ -z \"$UPDATE_URL\" ]; then\n        echo \"No update URL configured.\"\n        exit 1\n    fi\n    if command -v curl > /dev/null; then\n        VERSION_INFO=$(curl -s \"$UPDATE_URL/version.json\")\n    elif command -v wget > /dev/null; then\n        VERSION_INFO=$(wget -q -O - \"$UPDATE_URL/version.json\")\n    else\n        echo \"No curl or wget found to check for updates.\"\n        exit 1\n    fi\n    if [ -z \"$VERSION_INFO\" ]; then\n        echo \"Could not fetch version information.\"\n        exit 1\n    fi\n    LATEST_VERSION=$(echo \"$VERSION_INFO\" | sed -n 's/.*\"version\":\"\\([^\"]*\\)\".*/\\1/p' | head -n 1)\n    if [ -n \"$LATEST_VERSION\" ] && [ \"$CURRENT_VERSION\" != \"$LATEST_VERSION\" ]; then\n        echo \"Update available: $LATEST_VERSION (current: $CURRENT_VERSION)\"\n        echo \"Run with --update to download the latest version\"\n    else\n        echo \"You are running the latest version: $CURRENT_VERSION\"\n    fi\n    exit 0\nfi\n\nif [ \"$1\" = \"--update\" ]; then\n    UPDATE_URL=$(sed -n 's/.*\"update_url\":\"\\([^\"]*\\)\".*/\\1/p' \"$INFO\" | head -n 1)\n    rm -rf \"$TEMP_DIR\"\n    if [ -z \"$UPDATE_URL\" ]; then\n        echo \"No update URL configured.\"\n        exit 1\n    fi\n    TEMP_FILE=$(mktemp)\n    if command -v curl > /dev/null; then\n        curl -L -o \"$TEMP_FILE\" \"$UPDATE_URL/latest.rpack\" || exit 1\n    elif command -v wget > /dev/null; then\n        wget -O \"$TEMP_FILE\" \"$UPDATE_URL/latest.rpack\" || exit 1\n    else\n        echo \"No curl or wget found to download update.\"\n        exit 1\n    fi\n    chmod +x \"$TEMP_FILE\"\n    exec \"$TEMP_FILE\" --replace-with-update \"$0\"\nfi\n\nif [ \"$1\" = \"--replace-with-update\" ]; then\n    rm -rf \"$TEMP_DIR\"\n    if [ -n \"$2\" ]; then\n        mv \"$0\" \"$2\"\n        echo \"Update completed successfully!\"\n        exit 0\n    else\n        echo \"Missing target path for update\"\n        exit 1\n    fi\nfi\n\nKERNEL=$(uname -s | tr '[:upper:]' '[:lower:]')\nARCH=$(uname -m)\n\nif [ \"$KERNEL\" = \"darwin\" ]; then\n    PLATFORM=\"macos\"\nelif [ \"$KERNEL\" = \"linux\" ]; then\n    PLATFORM=\"linux\"\nelif echo \"$KERNEL\" | grep -q \"mingw\\|cygwin\\|msys\"; then\n    PLATFORM=\"windows\"\nelse\n    PLATFORM=\"unknown\"\nfi\n\nif [ \"$ARCH\" = \"x86_64\" ] || [ \"$ARCH\" = \"amd64\" ]; then\n    ARCH=\"x86_64\"\nelif [ \"$ARCH\" = \"arm64\" ] || [ \"$ARCH\" = \"aarch64\" ]; then\n    ARCH=\"aarch64\"\nelif [ \"$ARCH\" = \"i386\" ] || [ \"$ARCH\" = \"i686\" ]; then\n    ARCH=\"x86\"\nelif [ \"$ARCH\" = \"arm\" ] || [ \"$ARCH\" = \"armv7l\" ]; then\n    ARCH=\"arm\"\nelse\n    ARCH=\"unknown\"\nfi\n\nif [ -d \"$TEMP_DIR/rustpack/assets\" ]; then\n    export RUSTPACK_ASSETS_DIR=\"$TEMP_DIR/rustpack/assets\"\nfi\n\nBINARY_PATH=$(sed -n \"s/.*{\\\"platform\\\":\\\"$PLATFORM\\\",\\\"arch\\\":\\\"$ARCH\\\",\\\"binary_path\\\":\\\"\\([^\\\"]*\\)\\\".*/\\1/p\" \"$INFO\" | head -n 1)\n\nif [ -z \"$BINARY_PATH\" ]; then\n    echo \"Error: No compatible binary found for $PLATFORM-$ARCH\"\n    rm -rf \"$TEMP_DIR\"\n    exit 1\nfi\n\nchmod +x \"$TEMP_DIR/rustpack/$BINARY_PATH\"\nCLEANUP=0\nfor A in \"$@\"; do\n    if [ \"$A\" = \"--cleanup\" ]; then\n        CLEANUP=1\n    fi\ndone\nif [ \"$CLEANUP\" = \"1\" ]; then\n    for A in \"$@\"; do\n        shift\n        [ \"$A\" = \"--cleanup\" ] || set -- \"$@\" \"$A\"\n    done\n    \"$TEMP_DIR/rustpack/$BINARY_PATH\" \"$@\"\n    STATUS=$?\n    rm -rf \"$TEMP_DIR\"\n    exit $STATUS\nelse\n    exec \"$TEMP_DIR/rustpack/$BINARY_PATH\" \"$@\"\nfi\n__PAYLOAD_BEGINS__\n";

pub open spec fn launcher_chars() -> Seq<char> {
    LAUNCHER_TEXT@
}

/// The launcher's bytes, which prefix every self-extracting artifact.
pub open spec fn launcher_bytes() -> Seq<u8> {
    encode_utf8(launcher_chars())
}

fn launcher_bytes_vec() -> (r: Vec<u8>)
    ensures
        r@ == launcher_bytes(),
{
    let l: &str = LAUNCHER_TEXT;
    l.as_bytes_vec()
}

#[derive(Clone, Copy, Debug, PartialEq, Eq, Structural)]
pub enum ArchiveError {
    PackFailed,
    NotSelfExtracting,
    UnpackFailed,
}

/// A tree's self-extracting encoding: the launcher text verbatim (its
/// last line being the marker), then the compressed tar stream.
pub open spec fn self_extracting_bytes(tv: Seq<EntryV>) -> Seq<u8> {
    launcher_bytes() + targz_of(tar_raws(tv))
}

/// A tree's plain-archive encoding.
pub open spec fn zip_archive_bytes(tv: Seq<EntryV>) -> Seq<u8> {
    zip_of(zip_raws(tv))
}

/// Encode a tree as a self-extracting artifact.  Every valid tree is
/// accepted; the bytes are exactly the launcher followed by the
/// compressed payload.
pub fn encode_self_extracting(tree: &Vec<PayloadEntry>) -> (r: Result<Vec<u8>, ArchiveError>)
    ensures
        r matches Result::Ok(b) ==> b@ == self_extracting_bytes(tree_view(tree@)),
        valid_tree(tree_view(tree@)) ==> r is Ok,
{
    let raws = to_tar_raws(tree);
    match targz_pack(&raws) {
        Option::Some(mut tz) => {
            let mut out = launcher_bytes_vec();
            out.append(&mut tz);
            Result::Ok(out)
        },
        Option::None => {
            proof {
                if valid_tree(tree_view(tree@)) {
                    lemma_valid_tree_raws(tree_view(tree@));
                }
            }
            Result::Err(ArchiveError::PackFailed)
        },
    }
}

/// Extract a self-extracting artifact: check and strip the launcher,
/// then unpack the compressed payload.  On the encoding of any valid
/// tree this returns exactly that tree.
pub fn extract_self_extracting(artifact: &[u8]) -> (r: Result<Vec<PayloadEntry>, ArchiveError>)
    ensures
        forall|tv: Seq<EntryV>|
            valid_tree(tv) && artifact@ == self_extracting_bytes(tv) ==> (r matches Result::Ok(t)
                && tree_view(t@) == tv),
{
    let lb = launcher_bytes_vec();
    let ln = lb.len();
    if artifact.len() < ln {
        return Result::Err(ArchiveError::NotSelfExtracting);
    }
    let head = vstd::slice::slice_subrange(artifact, 0, ln);
    if !crate::chartext::bytes_eq(head, lb.as_slice()) {
        proof {
            assert forall|tv: Seq<EntryV>|
                valid_tree(tv) && artifact@ == self_extracting_bytes(tv) implies false by {
                assert(head@ =~= launcher_bytes());
            }
        }
        return Result::Err(ArchiveError::NotSelfExtracting);
    }
    let rest = vstd::slice::slice_subrange(artifact, ln, artifact.len());
    match targz_unpack(rest) {
        Option::Some(raws) => {
            let tree = tree_of_tar_raws(&raws);
            proof {
                assert forall|tv: Seq<EntryV>|
                    valid_tree(tv) && artifact@ == self_extracting_bytes(tv) implies tree_view(
                    tree@,
                ) == tv by {
                    lemma_valid_tree_raws(tv);
                    assert(rest@ =~= targz_of(tar_raws(tv)));
                    assert(raws_view(raws@) == tar_raws(tv));
                    lemma_raw_round_trip(tv);
                }
            }
            Result::Ok(tree)
        },
        Option::None => {
            proof {
                assert forall|tv: Seq<EntryV>|
                    valid_tree(tv) && artifact@ == self_extracting_bytes(tv) implies false by {
                    lemma_valid_tree_raws(tv);
                    assert(rest@ =~= targz_of(tar_raws(tv)));
                }
            }
            Result::Err(ArchiveError::UnpackFailed)
        },
    }
}

/// Encode a tree as a plain zip archive.  Every valid tree is accepted,
/// and every file entry is tagged with the portable executable
/// permission bit, as the plain-archive form carries it.
pub fn encode_zip_archive(tree: &Vec<PayloadEntry>) -> (r: Result<Vec<u8>, ArchiveError>)
    ensures
        r matches Result::Ok(b) ==> b@ == zip_archive_bytes(tree_view(tree@)),
        valid_tree(tree_view(tree@)) ==> r is Ok,
{
    let raws = to_zip_raws(tree);
    match zip_pack(&raws) {
        Option::Some(z) => Result::Ok(z),
        Option::None => {
            proof {
                if valid_tree(tree_view(tree@)) {
                    lemma_valid_tree_raws(tree_view(tree@));
                }
            }
            Result::Err(ArchiveError::PackFailed)
        },
    }
}

/// Extract a plain zip archive.  On the encoding of any valid tree this
/// returns that tree's paths and contents exactly; the blanket stored
/// permission bit reads every file back as executable.
pub fn extract_zip_archive(archive: &[u8]) -> (r: Result<Vec<PayloadEntry>, ArchiveError>)
    ensures
        forall|tv: Seq<EntryV>|
            valid_tree(tv) && archive@ == zip_archive_bytes(tv) ==> (r matches Result::Ok(t)
                && tree_view(t@) == blanket_exec(tv)),
{
    match zip_unpack(archive) {
        Option::Some(raws) => {
            let tree = tree_of_zip_raws(&raws);
            proof {
                assert forall|tv: Seq<EntryV>|
                    valid_tree(tv) && archive@ == zip_archive_bytes(tv) implies tree_view(tree@)
                    == blanket_exec(tv) by {
                    lemma_valid_tree_raws(tv);
                    assert(raws_view(raws@) == zip_raws(tv));
                    lemma_raw_round_trip(tv);
                }
            }
            Result::Ok(tree)
        },
        Option::None => {
            proof {
                assert forall|tv: Seq<EntryV>|
                    valid_tree(tv) && archive@ == zip_archive_bytes(tv) implies false by {
                    lemma_valid_tree_raws(tv);
                }
            }
            Result::Err(ArchiveError::UnpackFailed)
        },
    }
}

} // verus!
