//! Per-server manifest bookkeeping: the durable record of which relative
//! paths a patch pass overwrote (and backed up) and which it newly added,
//! together with its text encoding. One manifest exists per server name; a
//! new patch pass overwrites it.

use vstd::prelude::*;
use vstd::string::*;
use crate::text::{first_idx, lemma_first_idx, lemma_first_idx_is, split_lines_spec, split_lines, views_of};

verus! {

/// The mathematical content of a manifest: the overwritten and the added
/// relative paths, each in swap order.
pub ghost struct ManifestView {
    pub modified: Seq<Seq<char>>,
    pub added: Seq<Seq<char>>,
}

impl ManifestView {
    /// The manifest of a pass that changed nothing.
    pub open spec fn empty() -> ManifestView {
        ManifestView { modified: Seq::empty(), added: Seq::empty() }
    }
}

/// The record of one patch pass: paths that existed locally and were
/// overwritten (after being backed up), and paths newly created.
pub struct Manifest {
    pub modified_files: Vec<String>,
    pub added_files: Vec<String>,
}

impl View for Manifest {
    type V = ManifestView;

    open spec fn view(&self) -> ManifestView {
        ManifestView { modified: views_of(self.modified_files@), added: views_of(self.added_files@) }
    }
}

impl Default for Manifest {
    /// An empty manifest.
    fn default() -> (r: Self)
        ensures
            r@ == ManifestView::empty(),
    {
        let r = Manifest { modified_files: Vec::new(), added_files: Vec::new() };
        proof {
            assert(r@.modified =~= Seq::<Seq<char>>::empty());
            assert(r@.added =~= Seq::<Seq<char>>::empty());
        }
        r
    }
}

impl Manifest {
    /// The manifest file's path under `root`, keyed by server name.
    pub fn path(root: &str, server: &str) -> (r: String)
        ensures
            r@ == root@ + "/ButterClient/Manifests/"@ + server@ + ".json"@,
    {
        let mut s = root.to_owned();
        s.append("/ButterClient/Manifests/");
        s.append(server);
        s.append(".json");
        s
    }
}

/// A path that a manifest can carry through its text encoding and back:
/// line breaks cannot appear in it.
pub open spec fn wf_path(p: Seq<char>) -> bool {
    forall|i: int| 0 <= i < p.len() ==> p[i] != '\n' && p[i] != '\r'
}

/// Every path of the manifest is encodable.
pub open spec fn wf_manifest(m: ManifestView) -> bool {
    &&& forall|i: int| 0 <= i < m.modified.len() ==> wf_path(#[trigger] m.modified[i])
    &&& forall|i: int| 0 <= i < m.added.len() ==> wf_path(#[trigger] m.added[i])
}

/// One encoded manifest line: a tag, a tab, the path, a newline.
pub open spec fn encode_entry(tag: Seq<char>, p: Seq<char>) -> Seq<char> {
    tag + seq!['\t'] + p + seq!['\n']
}

/// The encoding of one list of paths under one tag.
pub open spec fn encode_list(tag: Seq<char>, ps: Seq<Seq<char>>) -> Seq<char>
    decreases ps.len(),
{
    if ps.len() == 0 {
        Seq::empty()
    } else {
        encode_entry(tag, ps[0]) + encode_list(tag, ps.drop_first())
    }
}

/// The text form of a manifest: every overwritten path on a `modified` line,
/// then every added path on an `added` line.
pub open spec fn encode_manifest_spec(m: ManifestView) -> Seq<char> {
    encode_list("modified"@, m.modified) + encode_list("added"@, m.added)
}

fn encode_lines(tag: &str, ps: &Vec<String>, out: &mut String)
    ensures
        final(out)@ == old(out)@ + encode_list(tag@, views_of(ps@)),
{
    let n = ps.len();
    let mut i: usize = 0;
    proof {
        assert(views_of(ps@).skip(0) =~= views_of(ps@));
    }
    while i < n
        invariant
            i <= n,
            n == ps@.len(),
            out@ + encode_list(tag@, views_of(ps@).skip(i as int)) =~= old(out)@ + encode_list(
                tag@,
                views_of(ps@),
            ),
        decreases n - i,
    {
        let ghost pre = out@;
        out.append(tag);
        out.append("\t");
        out.append(ps[i].as_str());
        out.append("\n");
        proof {
            reveal_strlit("\t");
            reveal_strlit("\n");
            let vs = views_of(ps@).skip(i as int);
            assert(vs[0] == ps@[i as int]@);
            assert(vs.drop_first() =~= views_of(ps@).skip(i + 1));
            assert(out@ =~= pre + encode_entry(tag@, ps@[i as int]@));
            assert(out@ + encode_list(tag@, views_of(ps@).skip(i + 1)) =~= pre + encode_list(
                tag@,
                vs,
            ));
        }
        i += 1;
    }
    proof {
        assert(views_of(ps@).skip(n as int) =~= Seq::<Seq<char>>::empty());
        assert(out@ =~= out@ + encode_list(tag@, views_of(ps@).skip(n as int)));
    }
}

/// Serializes a manifest to its text form.
pub fn encode_manifest(m: &Manifest) -> (r: String)
    ensures
        r@ == encode_manifest_spec(m@),
{
    let mut out = String::new();
    encode_lines("modified", &m.modified_files, &mut out);
    encode_lines("added", &m.added_files, &mut out);
    proof {
        assert(Seq::<char>::empty() + encode_list("modified"@, m@.modified) =~= encode_list(
            "modified"@,
            m@.modified,
        ));
        assert(encode_list("modified"@, m@.modified) + encode_list("added"@, m@.added)
            =~= encode_manifest_spec(m@));
    }
    out
}

/// One parsed manifest line: `true` for an overwritten path, `false` for an
/// added one.
pub open spec fn parse_m_line(l: Seq<char>) -> Option<(bool, Seq<char>)> {
    let i = first_idx(l, '\t');
    if i == l.len() {
        None
    } else {
        let tag = l.subrange(0, i);
        let p = l.subrange(i + 1, l.len() as int);
        if tag == "modified"@ {
            Some((true, p))
        } else if tag == "added"@ {
            Some((false, p))
        } else {
            None
        }
    }
}

/// The manifest described by a sequence of parsed lines, or nothing when any
/// line is malformed.
pub open spec fn parse_lines(ls: Seq<Seq<char>>) -> Option<ManifestView>
    decreases ls.len(),
{
    if ls.len() == 0 {
        Some(ManifestView::empty())
    } else {
        match parse_m_line(ls[0]) {
            None => None,
            Some(e) => match parse_lines(ls.drop_first()) {
                None => None,
                Some(mv) => if e.0 {
                    Some(ManifestView { modified: seq![e.1] + mv.modified, added: mv.added })
                } else {
                    Some(ManifestView { modified: mv.modified, added: seq![e.1] + mv.added })
                },
            },
        }
    }
}

/// The manifest read from its text form; malformed text reads as the empty
/// manifest, so that a corrupt manifest means "nothing to roll back" rather
/// than an error.
pub open spec fn parse_manifest_spec(s: Seq<char>) -> ManifestView {
    match parse_lines(split_lines_spec(s)) {
        Some(mv) => mv,
        None => ManifestView::empty(),
    }
}

fn parse_one_line(line: &str) -> (r: Option<(bool, String)>)
    ensures
        match r {
            Some(e) => parse_m_line(line@) == Some((e.0, e.1@)),
            None => parse_m_line(line@) is None,
        },
{
    let n = line.unicode_len();
    proof {
        assert(line@.skip(0) =~= line@);
        lemma_first_idx(line@, '\t');
    }
    let i = crate::text::find_char_from(line, '\t', 0);
    if i == n {
        return None;
    }
    let tag = line.substring_char(0, i);
    let p = line.substring_char(i + 1, n).to_owned();
    if crate::text::str_eq(tag, "modified") {
        Some((true, p))
    } else if crate::text::str_eq(tag, "added") {
        Some((false, p))
    } else {
        None
    }
}

/// Deserializes a manifest from its text form; malformed text gives the
/// empty manifest.
pub fn parse_manifest(s: &str) -> (r: Manifest)
    ensures
        r@ == parse_manifest_spec(s@),
{
    let lines = split_lines(s);
    let ghost lviews = split_lines_spec(s@);
    let n = lines.len();
    let mut modified: Vec<String> = Vec::new();
    let mut added: Vec<String> = Vec::new();
    let mut i: usize = 0;
    proof {
        assert(lviews.skip(0) =~= lviews);
    }
    while i < n
        invariant
            i <= n,
            n == lines@.len(),
            lviews == split_lines_spec(s@),
            views_of(lines@) == lviews,
            parse_lines(lviews) is Some <==> parse_lines(lviews.skip(i as int)) is Some,
            parse_lines(lviews) matches Some(mv) ==> parse_lines(lviews.skip(i as int)) matches Some(suf)
                && mv.modified == views_of(modified@) + suf.modified && mv.added == views_of(added@)
                + suf.added,
        decreases n - i,
    {
        let ghost suffix = lviews.skip(i as int);
        proof {
            assert(suffix[0] == lviews[i as int]);
            assert(suffix.drop_first() =~= lviews.skip(i + 1));
        }
        match parse_one_line(lines[i].as_str()) {
            None => {
                let r = Manifest::default();
                proof {
                    assert(parse_lines(suffix) is None);
                }
                return r;
            },
            Some((is_modified, p)) => {
                proof {
                    if parse_lines(lviews.skip(i + 1)) is Some {
                        let suf2 = parse_lines(lviews.skip(i + 1))->0;
                        if is_modified {
                            assert(views_of(modified@.push(p)) + suf2.modified =~= views_of(
                                modified@,
                            ) + (seq![p@] + suf2.modified));
                        } else {
                            assert(views_of(added@.push(p)) + suf2.added =~= views_of(added@) + (
                            seq![p@] + suf2.added));
                        }
                    }
                }

                if is_modified {
                    modified.push(p);
                } else {
                    added.push(p);
                }
            },
        }
        i += 1;
    }
    proof {
        assert(lviews.skip(n as int) =~= Seq::<Seq<char>>::empty());
        let mv = parse_lines(lviews)->0;
        assert(mv.modified =~= views_of(modified@));
        assert(mv.added =~= views_of(added@));
    }
    Manifest { modified_files: modified, added_files: added }
}

proof fn lemma_encode_entry_parses(tag_modified: bool, p: Seq<char>, rest: Seq<char>)
    requires
        wf_path(p),
    ensures
        ({
            let tag: Seq<char> = if tag_modified {
                "modified"@
            } else {
                "added"@
            };
            let s = encode_entry(tag, p) + rest;
            split_lines_spec(s) == seq![tag + seq!['\t'] + p] + split_lines_spec(rest)
        }),
{
    reveal_strlit("modified");
    reveal_strlit("added");
    let tag: Seq<char> = if tag_modified {
        "modified"@
    } else {
        "added"@
    };
    let line = tag + seq!['\t'] + p;
    let s = encode_entry(tag, p) + rest;
    assert(s =~= line + seq!['\n'] + rest);
    assert(forall|j: int| 0 <= j < tag.len() ==> tag[j] != '\n');
    assert(forall|j: int| 0 <= j < line.len() ==> line[j] != '\n');
    assert(s[line.len() as int] == '\n');
    lemma_first_idx_is(s, '\n', line.len() as int);
    assert(s.subrange(0, line.len() as int) =~= line);
    assert(line.len() > 0 && line.last() != '\r');
    assert(crate::text::strip_cr(line) == line);
    assert(s.subrange(line.len() as int + 1, s.len() as int) =~= rest);
    if rest.len() == 0 {
        assert(split_lines_spec(s) =~= seq![line] + split_lines_spec(rest));
    }
}

proof fn lemma_encode_line_parses(tag_modified: bool, p: Seq<char>)
    requires
        wf_path(p),
    ensures
        ({
            let tag: Seq<char> = if tag_modified {
                "modified"@
            } else {
                "added"@
            };
            parse_m_line(tag + seq!['\t'] + p) == Some((tag_modified, p))
        }),
{
    reveal_strlit("modified");
    reveal_strlit("added");
    let tag: Seq<char> = if tag_modified {
        "modified"@
    } else {
        "added"@
    };
    let line = tag + seq!['\t'] + p;
    assert(forall|j: int| 0 <= j < tag.len() ==> line[j] == tag[j] && line[j] != '\t');
    assert(line[tag.len() as int] == '\t');
    lemma_first_idx_is(line, '\t', tag.len() as int);
    assert(line.subrange(0, tag.len() as int) =~= tag);
    assert(line.subrange(tag.len() as int + 1, line.len() as int) =~= p);
    if tag_modified {
        assert(tag == "modified"@);
    } else {
        assert(tag.len() != "modified"@.len());
        assert(tag != "modified"@);
        assert(tag == "added"@);
    }
}

proof fn lemma_added_round_trip(added: Seq<Seq<char>>)
    requires
        forall|i: int| 0 <= i < added.len() ==> wf_path(#[trigger] added[i]),
    ensures
        parse_lines(split_lines_spec(encode_list("added"@, added))) == Some(
            ManifestView { modified: Seq::empty(), added: added },
        ),
    decreases added.len(),
{
    if added.len() == 0 {
        assert(encode_list("added"@, added) =~= Seq::<char>::empty());
        assert(split_lines_spec(Seq::<char>::empty()) =~= Seq::<Seq<char>>::empty());
        assert(added =~= Seq::<Seq<char>>::empty());
        assert(parse_lines(split_lines_spec(encode_list("added"@, added))) == Some(
            ManifestView { modified: Seq::<Seq<char>>::empty(), added: added },
        ));
    } else {
        let rest = encode_list("added"@, added.drop_first());
        lemma_added_round_trip(added.drop_first());
        lemma_encode_entry_parses(false, added[0], rest);
        lemma_encode_line_parses(false, added[0]);
        let ls = split_lines_spec(encode_list("added"@, added));
        assert(encode_list("added"@, added) =~= encode_entry("added"@, added[0]) + rest);
        assert(ls == seq![("added"@ + seq!['\t'] + added[0])] + split_lines_spec(rest));
        assert(ls[0] == "added"@ + seq!['\t'] + added[0]);
        assert(parse_m_line(ls[0]) == Some((false, added[0])));
        assert(ls.drop_first() =~= split_lines_spec(rest));
        assert(parse_lines(ls.drop_first()) == Some(
            ManifestView { modified: Seq::empty(), added: added.drop_first() },
        ));
        assert(seq![added[0]] + added.drop_first() =~= added);
        assert(parse_lines(ls) == Some(
            ManifestView { modified: Seq::<Seq<char>>::empty(), added: added },
        ));
    }
}

proof fn lemma_modified_round_trip(modified: Seq<Seq<char>>, added: Seq<Seq<char>>)
    requires
        forall|i: int| 0 <= i < modified.len() ==> wf_path(#[trigger] modified[i]),
        forall|i: int| 0 <= i < added.len() ==> wf_path(#[trigger] added[i]),
    ensures
        parse_lines(
            split_lines_spec(encode_list("modified"@, modified) + encode_list("added"@, added)),
        ) == Some(ManifestView { modified: modified, added: added }),
    decreases modified.len(),
{
    if modified.len() == 0 {
        assert(encode_list("modified"@, modified) + encode_list("added"@, added) =~= encode_list(
            "added"@,
            added,
        ));
        lemma_added_round_trip(added);
        assert(modified =~= Seq::<Seq<char>>::empty());
        assert(parse_lines(
            split_lines_spec(encode_list("modified"@, modified) + encode_list("added"@, added)),
        ) == Some(ManifestView { modified: modified, added: added }));
    } else {
        let rest = encode_list("modified"@, modified.drop_first()) + encode_list("added"@, added);
        lemma_modified_round_trip(modified.drop_first(), added);
        lemma_encode_entry_parses(true, modified[0], rest);
        lemma_encode_line_parses(true, modified[0]);
        let whole = encode_list("modified"@, modified) + encode_list("added"@, added);
        assert(whole =~= encode_entry("modified"@, modified[0]) + rest);
        let ls = split_lines_spec(whole);
        assert(ls == seq![("modified"@ + seq!['\t'] + modified[0])] + split_lines_spec(rest));
        assert(ls[0] == "modified"@ + seq!['\t'] + modified[0]);
        assert(parse_m_line(ls[0]) == Some((true, modified[0])));
        assert(ls.drop_first() =~= split_lines_spec(rest));
        assert(parse_lines(ls.drop_first()) == Some(
            ManifestView { modified: modified.drop_first(), added: added },
        ));
        assert(seq![modified[0]] + modified.drop_first() =~= modified);
        assert(parse_lines(ls) == Some(ManifestView { modified: modified, added: added }));
    }
}

/// A manifest whose paths carry no line breaks reads back from its text form
/// exactly as it was written: persistence loses nothing.
pub proof fn lemma_manifest_round_trip(m: ManifestView)
    requires
        wf_manifest(m),
    ensures
        parse_manifest_spec(encode_manifest_spec(m)) == m,
{
    lemma_modified_round_trip(m.modified, m.added);
}

} // verus!
