//! The content-addressable check: parses a server digest listing
//! (`<hex-digest>\t<relative-path>` per line) and compares each declared
//! digest against the SHA-256 of the corresponding local file, producing the
//! changed paths in listing order.

use vstd::prelude::*;
use vstd::string::*;
use crate::errors::PatchError;
use crate::store::PathTable;
use crate::text::{find_char_from, first_idx, lemma_first_idx, split_lines, split_lines_spec, views_of};

verus! {

/// The files of an installation, by relative path.
pub type FileStore = PathTable<Vec<u8>>;

/// The lower-case hexadecimal SHA-256 digest of a byte sequence. The digest
/// is a function of the bytes alone; its value is not axiomatized here.
pub uninterp spec fn sha256_hex_of(b: Seq<u8>) -> Seq<char>;

/// Relies on sha2's `Sha256` together with generic-array's `LowerHex`
/// formatting: the digest of the input bytes, as 64 lower-case hex digits.
#[verifier::external_body]
pub(crate) fn sha256_hex(bytes: &[u8]) -> (r: String)
    ensures
        r@ == sha256_hex_of(bytes@),
        r@.len() == 64,
{
    let mut h = <sha2::Sha256 as sha2::Digest>::new();
    sha2::Digest::update(&mut h, bytes);
    format!("{:x}", sha2::Digest::finalize(h))
}

/// One line of the digest listing: a declared digest and a relative path.
pub struct DigestEntry {
    pub digest: String,
    pub path: String,
}

impl View for DigestEntry {
    type V = (Seq<char>, Seq<char>);

    open spec fn view(&self) -> (Seq<char>, Seq<char>) {
        (self.digest@, self.path@)
    }
}

/// The views of a vector of entries.
pub open spec fn entry_views(s: Seq<DigestEntry>) -> Seq<(Seq<char>, Seq<char>)> {
    s.map_values(|e: DigestEntry| e@)
}

/// `s` with every leading `'/'` removed.
pub open spec fn strip_slashes(s: Seq<char>) -> Seq<char>
    decreases s.len(),
{
    if s.len() > 0 && s[0] == '/' {
        strip_slashes(s.drop_first())
    } else {
        s
    }
}

proof fn lemma_strip_slashes(s: Seq<char>, k: int)
    requires
        0 <= k <= s.len(),
        forall|m: int| 0 <= m < k ==> s[m] == '/',
        k < s.len() ==> s[k] != '/',
    ensures
        strip_slashes(s) == s.skip(k),
    decreases k,
{
    if k == 0 {
        assert(strip_slashes(s) =~= s.skip(0));
    } else {
        let t = s.drop_first();
        assert(forall|m: int| 0 <= m < k - 1 ==> t[m] == s[m + 1] && t[m] == '/');
        lemma_strip_slashes(t, k - 1);
        assert(t.skip(k - 1) =~= s.skip(k));
    }
}

/// One listing line parsed: the text before the first tab is the digest, the
/// rest — stripped of leading slashes — is the relative path. A line with no
/// tab is malformed.
pub open spec fn parse_line_spec(l: Seq<char>) -> Option<(Seq<char>, Seq<char>)> {
    let i = first_idx(l, '\t');
    if i == l.len() {
        None
    } else {
        Some((l.subrange(0, i), strip_slashes(l.subrange(i + 1, l.len() as int))))
    }
}

/// Whether every line of the listing is well-formed.
pub open spec fn listing_ok(content: Seq<char>) -> bool {
    forall|i: int|
        0 <= i < split_lines_spec(content).len() ==> parse_line_spec(
            #[trigger] split_lines_spec(content)[i],
        ) is Some
}

/// The (digest, path) pairs of a well-formed listing, in line order.
pub open spec fn listing_entries(content: Seq<char>) -> Seq<(Seq<char>, Seq<char>)> {
    Seq::new(
        split_lines_spec(content).len(),
        |i: int| parse_line_spec(split_lines_spec(content)[i])->0,
    )
}

fn parse_line(line: &str) -> (r: Option<DigestEntry>)
    ensures
        match r {
            Some(e) => parse_line_spec(line@) == Some(e@),
            None => parse_line_spec(line@) is None,
        },
{
    let n = line.unicode_len();
    proof {
        assert(line@.skip(0) =~= line@);
        lemma_first_idx(line@, '\t');
    }
    let i = find_char_from(line, '\t', 0);
    if i == n {
        return None;
    }
    let digest = line.substring_char(0, i).to_owned();
    let mut j = i + 1;
    while j < n && line.get_char(j) == '/'
        invariant
            i + 1 <= j <= n,
            n == line@.len(),
            forall|m: int| i + 1 <= m < j ==> line@[m] == '/',
        decreases n - j,
    {
        j += 1;
    }
    let path = line.substring_char(j, n).to_owned();
    proof {
        let t = line@.subrange(i + 1, n as int);
        assert(forall|m: int| 0 <= m < j - i - 1 ==> t[m] == line@[i + 1 + m] && t[m] == '/');
        lemma_strip_slashes(t, j - i - 1);
        assert(t.skip(j - i - 1) =~= line@.subrange(j as int, n as int));
    }
    Some(DigestEntry { digest, path })
}

/// Parses a digest listing. Returns the entries in line order, or a network
/// error when any line lacks a tab separator (the listing is untrusted
/// server data).
pub fn parse_listing(content: &str) -> (r: Result<Vec<DigestEntry>, PatchError>)
    ensures
        r is Ok <==> listing_ok(content@),
        r matches Ok(v) ==> entry_views(v@) == listing_entries(content@),
        r matches Err(e) ==> e == PatchError::Network,
{
    let lines = split_lines(content);
    let ghost lviews = split_lines_spec(content@);
    let mut out: Vec<DigestEntry> = Vec::new();
    let n = lines.len();
    let mut i: usize = 0;
    while i < n
        invariant
            i <= n,
            n == lines@.len(),
            lviews == split_lines_spec(content@),
            views_of(lines@) == lviews,
            forall|j: int| 0 <= j < i ==> parse_line_spec(lviews[j]) is Some,
            entry_views(out@) =~= Seq::new(i as nat, |j: int| parse_line_spec(lviews[j])->0),
        decreases n - i,
    {
        assert(lines@[i as int]@ == lviews[i as int]);
        match parse_line(lines[i].as_str()) {
            Some(e) => {
                let ghost ev = e@;
                let ghost prev = out@;
                out.push(e);
                proof {
                    assert(entry_views(out@) =~= entry_views(prev).push(ev));
                    assert(entry_views(out@) =~= Seq::new(
                        (i + 1) as nat,
                        |j: int| parse_line_spec(lviews[j])->0,
                    ));
                }
            },
            None => {
                return Err(PatchError::Network);
            },
        }
        i += 1;
    }
    proof {
        assert(entry_views(out@) =~= listing_entries(content@));
    }
    Ok(out)
}

/// Whether a declared entry counts as changed against the local files: the
/// file is missing, or its digest differs from the declared one.
pub open spec fn entry_changed(
    fs: Map<Seq<char>, Seq<u8>>,
    digest: Seq<char>,
    path: Seq<char>,
) -> bool {
    !fs.contains_key(path) || sha256_hex_of(fs[path]) != digest
}

/// The changed paths among `entries`, in listing order, without
/// deduplication.
pub open spec fn changed_paths_spec(
    entries: Seq<(Seq<char>, Seq<char>)>,
    fs: Map<Seq<char>, Seq<u8>>,
) -> Seq<Seq<char>>
    decreases entries.len(),
{
    if entries.len() == 0 {
        Seq::empty()
    } else {
        let head = if entry_changed(fs, entries[0].0, entries[0].1) {
            seq![entries[0].1]
        } else {
            Seq::empty()
        };
        head + changed_paths_spec(entries.drop_first(), fs)
    }
}

/// For every declared entry whose local file matches its digest the path is
/// excluded; for every entry whose file is missing or differs the path is
/// included, in listing order.
pub fn compute_changed(entries: &Vec<DigestEntry>, fs: &FileStore) -> (r: Vec<String>)
    requires
        fs.wf(),
    ensures
        views_of(r@) == changed_paths_spec(entry_views(entries@), fs@),
{
    let n = entries.len();
    let mut out: Vec<String> = Vec::new();
    let ghost evs = entry_views(entries@);
    let mut i: usize = 0;
    proof {
        assert(evs.skip(0) =~= evs);
        assert(views_of(Seq::<String>::empty()) =~= Seq::<Seq<char>>::empty());
    }
    while i < n
        invariant
            i <= n,
            n == entries@.len(),
            fs.wf(),
            evs == entry_views(entries@),
            changed_paths_spec(evs, fs@) =~= views_of(out@) + changed_paths_spec(
                evs.skip(i as int),
                fs@,
            ),
        decreases n - i,
    {
        let e = &entries[i];
        let changed = match fs.get_value(e.path.as_str()) {
            None => true,
            Some(bytes) => {
                let local = sha256_hex(bytes.as_slice());
                !crate::text::str_eq(local.as_str(), e.digest.as_str())
            },
        };
        proof {
            assert(evs.skip(i as int)[0] == evs[i as int]);
            assert(evs.skip(i as int).drop_first() =~= evs.skip(i + 1));
        }
        if changed {
            out.push(e.path.clone());
            proof {
                assert(views_of(out@) =~= views_of(out@.drop_last()) + seq![e.path@]);
            }
        }
        i += 1;
    }
    proof {
        assert(evs.skip(n as int) =~= Seq::<(Seq<char>, Seq<char>)>::empty());
        assert(views_of(out@) =~= changed_paths_spec(evs, fs@));
    }
    out
}

/// The full content-addressable check: parse the listing, then compare each
/// declared digest against the local files, returning the changed paths in
/// listing order. Fails with a network error exactly when the listing is
/// malformed.
pub fn get_changed_paths(content: &str, fs: &FileStore) -> (r: Result<Vec<String>, PatchError>)
    requires
        fs.wf(),
    ensures
        r is Ok <==> listing_ok(content@),
        r matches Ok(v) ==> views_of(v@) == changed_paths_spec(listing_entries(content@), fs@),
        r matches Err(e) ==> e == PatchError::Network,
{
    let entries = parse_listing(content)?;
    Ok(compute_changed(&entries, fs))
}

} // verus!
