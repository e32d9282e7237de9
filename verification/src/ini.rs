//! A verified INI parser and writer: sections in file order, key/value pairs
//! in section order, comments and blank lines skipped, and the original
//! file's line ending detected and preserved on save.

use vstd::prelude::*;
use vstd::string::*;
use crate::numbers::{dec_digits, u32_to_string};
use crate::text::{
    find_char_from, first_idx, has_crlf, contains_crlf, lemma_first_idx, split_lines,
    split_lines_spec, trim, trim_spec, str_eq,
};

verus! {

/// The mathematical content of an INI file: named sections, each with its
/// key/value pairs in order, plus the detected line ending.
pub ghost struct IniView {
    pub sections: Seq<(Seq<char>, Seq<(Seq<char>, Seq<char>)>)>,
    pub line_ending: Seq<char>,
}

/// The views of one section's pairs.
pub open spec fn pairs_view(s: Seq<(String, String)>) -> Seq<(Seq<char>, Seq<char>)> {
    s.map_values(|p: (String, String)| (p.0@, p.1@))
}

/// The views of the section list.
pub open spec fn sections_view(s: Seq<(String, Vec<(String, String)>)>) -> Seq<
    (Seq<char>, Seq<(Seq<char>, Seq<char>)>),
> {
    s.map_values(|sec: (String, Vec<(String, String)>)| (sec.0@, pairs_view(sec.1@)))
}

/// An INI file: sections in file order, each holding its pairs in order, and
/// the line ending of the file it was read from.
pub struct IniFile {
    sections: Vec<(String, Vec<(String, String)>)>,
    /// The original file's line ending, preserved on save.
    pub line_ending: String,
}

impl View for IniFile {
    type V = IniView;

    closed spec fn view(&self) -> IniView {
        IniView { sections: sections_view(self.sections@), line_ending: self.line_ending@ }
    }
}

impl IniFile {
    /// The line ending is one of the two recognised forms.
    pub open spec fn wf(&self) -> bool {
        self@.line_ending == "\n"@ || self@.line_ending == "\r\n"@
    }
}

/// Index of the first section named `name`, or the section count if absent.
pub open spec fn find_sec(
    ss: Seq<(Seq<char>, Seq<(Seq<char>, Seq<char>)>)>,
    name: Seq<char>,
) -> int
    decreases ss.len(),
{
    if ss.len() == 0 {
        0
    } else if ss[0].0 == name {
        0
    } else {
        1 + find_sec(ss.drop_first(), name)
    }
}

pub proof fn lemma_find_sec(ss: Seq<(Seq<char>, Seq<(Seq<char>, Seq<char>)>)>, name: Seq<char>)
    ensures
        0 <= find_sec(ss, name) <= ss.len(),
        find_sec(ss, name) < ss.len() ==> ss[find_sec(ss, name)].0 == name,
        forall|j: int| 0 <= j < find_sec(ss, name) ==> (#[trigger] ss[j]).0 != name,
    decreases ss.len(),
{
    if ss.len() > 0 && ss[0].0 != name {
        lemma_find_sec(ss.drop_first(), name);
        assert(forall|j: int| 1 <= j < find_sec(ss, name) ==> ss[j] == ss.drop_first()[j - 1]);
    }
}

/// Index of the first pair keyed `key`, or the pair count if absent.
pub open spec fn find_key(ps: Seq<(Seq<char>, Seq<char>)>, key: Seq<char>) -> int
    decreases ps.len(),
{
    if ps.len() == 0 {
        0
    } else if ps[0].0 == key {
        0
    } else {
        1 + find_key(ps.drop_first(), key)
    }
}

pub proof fn lemma_find_key(ps: Seq<(Seq<char>, Seq<char>)>, key: Seq<char>)
    ensures
        0 <= find_key(ps, key) <= ps.len(),
        find_key(ps, key) < ps.len() ==> ps[find_key(ps, key)].0 == key,
        forall|j: int| 0 <= j < find_key(ps, key) ==> (#[trigger] ps[j]).0 != key,
    decreases ps.len(),
{
    if ps.len() > 0 && ps[0].0 != key {
        lemma_find_key(ps.drop_first(), key);
        assert(forall|j: int| 1 <= j < find_key(ps, key) ==> ps[j] == ps.drop_first()[j - 1]);
    }
}

/// One line folded into the parse state `(sections, current-section name)`:
/// blank lines and `;`/`#` comments are skipped; `[name]` opens (and, when
/// new, appends) a section; `key=value` appends a trimmed pair to the current
/// section; pairs before any section header are dropped.
pub open spec fn ini_line_step(
    ss: Seq<(Seq<char>, Seq<(Seq<char>, Seq<char>)>)>,
    cur: Seq<char>,
    line: Seq<char>,
) -> (Seq<(Seq<char>, Seq<(Seq<char>, Seq<char>)>)>, Seq<char>) {
    let t = trim_spec(line);
    if t.len() == 0 || t[0] == ';' || t[0] == '#' {
        (ss, cur)
    } else if t.len() >= 2 && t[0] == '[' && t.last() == ']' {
        let name = t.subrange(1, t.len() - 1);
        if find_sec(ss, name) == ss.len() {
            (ss.push((name, Seq::empty())), name)
        } else {
            (ss, name)
        }
    } else if first_idx(t, '=') < t.len() {
        let i = first_idx(t, '=');
        let k = trim_spec(t.subrange(0, i));
        let v = trim_spec(t.subrange(i + 1, t.len() as int));
        if cur.len() > 0 && find_sec(ss, cur) < ss.len() {
            let si = find_sec(ss, cur);
            (ss.update(si, (ss[si].0, ss[si].1.push((k, v)))), cur)
        } else {
            (ss, cur)
        }
    } else {
        (ss, cur)
    }
}

/// The whole file folded line by line.
pub open spec fn ini_fold(
    ss: Seq<(Seq<char>, Seq<(Seq<char>, Seq<char>)>)>,
    cur: Seq<char>,
    lines: Seq<Seq<char>>,
) -> (Seq<(Seq<char>, Seq<(Seq<char>, Seq<char>)>)>, Seq<char>)
    decreases lines.len(),
{
    if lines.len() == 0 {
        (ss, cur)
    } else {
        let st = ini_line_step(ss, cur, lines[0]);
        ini_fold(st.0, st.1, lines.drop_first())
    }
}

/// The parse of a whole file: its folded sections, and the Windows line
/// ending exactly when the text contains one.
pub open spec fn ini_parse_spec(content: Seq<char>) -> IniView {
    IniView {
        sections: ini_fold(Seq::empty(), Seq::empty(), split_lines_spec(content)).0,
        line_ending: if has_crlf(content) {
            "\r\n"@
        } else {
            "\n"@
        },
    }
}

fn find_section_idx(sections: &Vec<(String, Vec<(String, String)>)>, name: &str) -> (r: usize)
    ensures
        r as int == find_sec(sections_view(sections@), name@),
        r <= sections@.len(),
{
    let ghost ssv = sections_view(sections@);
    let n = sections.len();
    let mut i: usize = 0;
    while i < n
        invariant
            i <= n,
            n == sections@.len(),
            ssv == sections_view(sections@),
            forall|j: int| 0 <= j < i ==> (#[trigger] ssv[j]).0 != name@,
        decreases n - i,
    {
        if str_eq(sections[i].0.as_str(), name) {
            proof {
                assert(ssv[i as int].0 == sections@[i as int].0@);
                lemma_find_sec(ssv, name@);
            }
            return i;
        }
        proof {
            assert(ssv[i as int].0 == sections@[i as int].0@);
        }
        i += 1;
    }
    proof {
        lemma_find_sec(ssv, name@);
    }
    n
}

fn find_key_idx(pairs: &Vec<(String, String)>, key: &str) -> (r: usize)
    ensures
        r as int == find_key(pairs_view(pairs@), key@),
        r <= pairs@.len(),
{
    let ghost psv = pairs_view(pairs@);
    let n = pairs.len();
    let mut j: usize = 0;
    while j < n
        invariant
            j <= n,
            n == pairs@.len(),
            psv == pairs_view(pairs@),
            forall|m: int| 0 <= m < j ==> (#[trigger] psv[m]).0 != key@,
        decreases n - j,
    {
        if str_eq(pairs[j].0.as_str(), key) {
            proof {
                assert(psv[j as int] == (pairs@[j as int].0@, pairs@[j as int].1@));
                lemma_find_key(psv, key@);
            }
            return j;
        }
        proof {
            assert(psv[j as int].0 == pairs@[j as int].0@);
        }
        j += 1;
    }
    proof {
        lemma_find_key(psv, key@);
    }
    n
}

impl IniFile {
    /// Parses INI text. Never fails: unrecognised lines are skipped, as a
    /// forgiving reader of hand-edited configuration files must.
    pub fn parse(content: &str) -> (r: Result<IniFile, String>)
        ensures
            r is Ok,
            r matches Ok(ini) ==> ini@ == ini_parse_spec(content@) && ini.wf(),
    {
        let line_ending: String = if contains_crlf(content) {
            "\r\n".to_owned()
        } else {
            "\n".to_owned()
        };
        let lines = split_lines(content);
        let ghost lviews = split_lines_spec(content@);
        let mut sections: Vec<(String, Vec<(String, String)>)> = Vec::new();
        let mut cur: String = String::new();
        let n = lines.len();
        let mut i: usize = 0;
        proof {
            assert(lviews.skip(0) =~= lviews);
            assert(sections_view(sections@) =~= Seq::<
                (Seq<char>, Seq<(Seq<char>, Seq<char>)>),
            >::empty());
        }
        while i < n
            invariant
                i <= n,
                n == lines@.len(),
                lviews == split_lines_spec(content@),
                crate::text::views_of(lines@) == lviews,
                ini_fold(sections_view(sections@), cur@, lviews.skip(i as int)) == ini_fold(
                    Seq::empty(),
                    Seq::empty(),
                    lviews,
                ),
            decreases n - i,
        {
            let ghost pre_ss = sections_view(sections@);
            let ghost pre_cur = cur@;
            proof {
                assert(lviews.skip(i as int)[0] == lviews[i as int]);
                assert(lviews.skip(i as int).drop_first() =~= lviews.skip(i + 1));
                assert(lines@[i as int]@ == lviews[i as int]);
            }
            let line = &lines[i];
            let t = trim(line.as_str());
            let ghost tv = trim_spec(lviews[i as int]);
            let tn = t.unicode_len();
            if tn == 0 || t.get_char(0) == ';' || t.get_char(0) == '#' {
                // Blank line or comment: nothing changes.
            } else if tn >= 2 && t.get_char(0) == '[' && t.get_char(tn - 1) == ']' {
                let name = t.substring_char(1, tn - 1).to_owned();
                proof {
                    assert(name@ == tv.subrange(1, tv.len() - 1));
                }
                let si = find_section_idx(&sections, name.as_str());
                if si == sections.len() {
                    let empty_pairs: Vec<(String, String)> = Vec::new();
                    proof {
                        assert(pairs_view(empty_pairs@) =~= Seq::<(Seq<char>, Seq<char>)>::empty());
                    }
                    sections.push((name.clone(), empty_pairs));
                    proof {
                        assert(sections_view(sections@) =~= pre_ss.push(
                            (name@, Seq::<(Seq<char>, Seq<char>)>::empty()),
                        ));
                    }
                }
                cur = name;
            } else {
                proof {
                    lemma_first_idx(tv, '=');
                    assert(tv.skip(0) =~= tv);
                }
                let eq = find_char_from(t, '=', 0);
                if eq < tn {
                    let k = trim(t.substring_char(0, eq)).to_owned();
                    let v = trim(t.substring_char(eq + 1, tn)).to_owned();
                    proof {
                        assert(t@.subrange(0, eq as int) == tv.subrange(0, first_idx(tv, '=')));
                        assert(t@.subrange(eq + 1, tn as int) == tv.subrange(
                            first_idx(tv, '=') + 1,
                            tv.len() as int,
                        ));
                    }
                    if cur.as_str().unicode_len() > 0 {
                        let si = find_section_idx(&sections, cur.as_str());
                        if si < sections.len() {
                            let (nm, mut pairs) = sections.remove(si);
                            let ghost old_pairs = pairs_view(pairs@);
                            pairs.push((k, v));
                            proof {
                                assert(pairs_view(pairs@) =~= old_pairs.push((k@, v@)));
                            }
                            sections.insert(si, (nm, pairs));
                            proof {
                                assert(sections_view(sections@) =~= pre_ss.update(
                                    si as int,
                                    (pre_ss[si as int].0, pre_ss[si as int].1.push((k@, v@))),
                                ));
                            }
                        }
                    }
                }
            }
            proof {
                assert((sections_view(sections@), cur@) == ini_line_step(
                    pre_ss,
                    pre_cur,
                    lviews[i as int],
                ));
            }
            i += 1;
        }
        proof {
            assert(lviews.skip(n as int) =~= Seq::<Seq<char>>::empty());
            reveal_strlit("\n");
            reveal_strlit("\r\n");
        }
        Ok(IniFile { sections, line_ending })
    }

    /// The value of `key` in `section`: the first matching pair of the first
    /// matching section, or nothing.
    pub fn get(&self, section: &str, key: &str) -> (r: Option<String>)
        ensures
            match r {
                Some(v) => ini_get_spec(self@, section@, key@) == Some(v@),
                None => ini_get_spec(self@, section@, key@) is None,
            },
    {
        let ghost ssv = sections_view(self.sections@);
        let si = find_section_idx(&self.sections, section);
        proof {
            lemma_find_sec(ssv, section@);
        }
        if si == self.sections.len() {
            return None;
        }
        let pairs = &self.sections[si].1;
        let ghost psv = pairs_view(pairs@);
        proof {
            assert(psv == ssv[si as int].1);
            lemma_find_key(psv, key@);
        }
        let ki = find_key_idx(pairs, key);
        if ki == pairs.len() {
            None
        } else {
            proof {
                assert(psv[ki as int] == (pairs@[ki as int].0@, pairs@[ki as int].1@));
            }
            Some(pairs[ki].1.clone())
        }
    }

    /// Sets `key` in `section` to `value`: the first matching pair is
    /// updated in place; a missing pair is appended; a missing section is
    /// appended with that single pair.
    pub fn set(&mut self, section: &str, key: &str, value: &str)
        ensures
            final(self)@ == ini_set_spec(old(self)@, section@, key@, value@),
            final(self).wf() == old(self).wf(),
    {
        let ghost ssv = sections_view(self.sections@);
        let si = find_section_idx(&self.sections, section);
        proof {
            lemma_find_sec(ssv, section@);
        }
        if si == self.sections.len() {
            let mut pairs: Vec<(String, String)> = Vec::new();
            pairs.push((key.to_owned(), value.to_owned()));
            proof {
                assert(pairs_view(pairs@) =~= seq![(key@, value@)]);
            }
            self.sections.push((section.to_owned(), pairs));
            proof {
                assert(sections_view(self.sections@) =~= ssv.push(
                    (section@, seq![(key@, value@)]),
                ));
            }
            return ;
        }
        let (nm, mut pairs) = self.sections.remove(si);
        let ghost psv = pairs_view(pairs@);
        proof {
            assert(psv == ssv[si as int].1);
            lemma_find_key(psv, key@);
        }
        let ki = find_key_idx(&pairs, key);
        if ki < pairs.len() {
            pairs.remove(ki);
            pairs.insert(ki, (key.to_owned(), value.to_owned()));
            proof {
                assert(pairs_view(pairs@) =~= psv.update(ki as int, (key@, value@)));
            }
        } else {
            pairs.push((key.to_owned(), value.to_owned()));
            proof {
                assert(pairs_view(pairs@) =~= psv.push((key@, value@)));
            }
        }
        let ghost new_pairs = pairs_view(pairs@);
        self.sections.insert(si, (nm, pairs));
        proof {
            assert(sections_view(self.sections@) =~= ssv.update(
                si as int,
                (ssv[si as int].0, new_pairs),
            ));
        }
    }
}

/// One section's pairs in the saved form: `key=value` plus the line ending.
pub open spec fn render_pairs(ps: Seq<(Seq<char>, Seq<char>)>, le: Seq<char>) -> Seq<char>
    decreases ps.len(),
{
    if ps.len() == 0 {
        Seq::empty()
    } else {
        ps[0].0 + "="@ + ps[0].1 + le + render_pairs(ps.drop_first(), le)
    }
}

/// The saved form of the whole file: each section header, then its pairs.
pub open spec fn render_sections(
    ss: Seq<(Seq<char>, Seq<(Seq<char>, Seq<char>)>)>,
    le: Seq<char>,
) -> Seq<char>
    decreases ss.len(),
{
    if ss.len() == 0 {
        Seq::empty()
    } else {
        "["@ + ss[0].0 + "]"@ + le + render_pairs(ss[0].1, le) + render_sections(
            ss.drop_first(),
            le,
        )
    }
}

/// The text written on save, using the file's original line ending.
pub open spec fn render_spec(iv: IniView) -> Seq<char> {
    render_sections(iv.sections, iv.line_ending)
}

fn render_pairs_into(out: &mut String, pairs: &Vec<(String, String)>, le: &str)
    ensures
        final(out)@ == old(out)@ + render_pairs(pairs_view(pairs@), le@),
{
    let ghost psv = pairs_view(pairs@);
    let n = pairs.len();
    let mut j: usize = 0;
    proof {
        assert(psv.skip(0) =~= psv);
    }
    while j < n
        invariant
            j <= n,
            n == pairs@.len(),
            psv == pairs_view(pairs@),
            out@ + render_pairs(psv.skip(j as int), le@) =~= old(out)@ + render_pairs(psv, le@),
        decreases n - j,
    {
        let ghost pre = out@;
        proof {
            assert(psv.skip(j as int)[0] == psv[j as int]);
            assert(psv.skip(j as int).drop_first() =~= psv.skip(j + 1));
        }
        out.append(pairs[j].0.as_str());
        out.append("=");
        out.append(pairs[j].1.as_str());
        out.append(le);
        proof {
            assert(out@ =~= pre + (psv[j as int].0 + "="@ + psv[j as int].1 + le@));
            assert(out@ + render_pairs(psv.skip(j + 1), le@) =~= pre + render_pairs(
                psv.skip(j as int),
                le@,
            ));
        }
        j += 1;
    }
    proof {
        assert(psv.skip(n as int) =~= Seq::<(Seq<char>, Seq<char>)>::empty());
        assert(out@ =~= out@ + render_pairs(psv.skip(n as int), le@));
    }
}

impl IniFile {
    /// The file's saved text form, with its original line ending.
    pub fn render(&self) -> (r: String)
        ensures
            r@ == render_spec(self@),
    {
        let ghost ssv = sections_view(self.sections@);
        let mut out = String::new();
        let n = self.sections.len();
        let mut i: usize = 0;
        proof {
            assert(ssv.skip(0) =~= ssv);
            assert(Seq::<char>::empty() + render_sections(ssv, self.line_ending@)
                =~= render_sections(ssv, self.line_ending@));
        }
        while i < n
            invariant
                i <= n,
                n == self.sections@.len(),
                ssv == sections_view(self.sections@),
                out@ + render_sections(ssv.skip(i as int), self.line_ending@) =~= render_sections(
                    ssv,
                    self.line_ending@,
                ),
            decreases n - i,
        {
            let ghost pre = out@;
            proof {
                assert(ssv.skip(i as int)[0] == ssv[i as int]);
                assert(ssv.skip(i as int).drop_first() =~= ssv.skip(i + 1));
            }
            out.append("[");
            out.append(self.sections[i].0.as_str());
            out.append("]");
            out.append(self.line_ending.as_str());
            let ghost mid = out@;
            proof {
                assert(mid =~= pre + ("["@ + ssv[i as int].0 + "]"@ + self.line_ending@));
            }
            render_pairs_into(&mut out, &self.sections[i].1, self.line_ending.as_str());
            proof {
                assert(out@ + render_sections(ssv.skip(i + 1), self.line_ending@) =~= pre
                    + render_sections(ssv.skip(i as int), self.line_ending@));
            }
            i += 1;
        }
        proof {
            assert(ssv.skip(n as int) =~= Seq::<(Seq<char>, Seq<(Seq<char>, Seq<char>)>)>::empty());
            assert(out@ =~= out@ + render_sections(ssv.skip(n as int), self.line_ending@));
        }
        out
    }
}

/// The line ending as the debug listing shows it, quoted and escaped.
pub open spec fn dump_quoted(le: Seq<char>) -> Seq<char> {
    if le == "\r\n"@ {
        "\"\\r\\n\""@
    } else {
        "\"\\n\""@
    }
}

/// One section's pairs in the debug listing.
pub open spec fn dump_pairs(ps: Seq<(Seq<char>, Seq<char>)>) -> Seq<char>
    decreases ps.len(),
{
    if ps.len() == 0 {
        Seq::empty()
    } else {
        "  "@ + ps[0].0 + " = "@ + ps[0].1 + "\n"@ + dump_pairs(ps.drop_first())
    }
}

/// The sections in the debug listing.
pub open spec fn dump_sections(ss: Seq<(Seq<char>, Seq<(Seq<char>, Seq<char>)>)>) -> Seq<char>
    decreases ss.len(),
{
    if ss.len() == 0 {
        Seq::empty()
    } else {
        "["@ + ss[0].0 + "]\n"@ + dump_pairs(ss[0].1) + dump_sections(ss.drop_first())
    }
}

/// The whole debug listing: the line ending, then every section.
pub open spec fn dump_spec(iv: IniView) -> Seq<char> {
    "Line ending: "@ + dump_quoted(iv.line_ending) + "\n"@ + dump_sections(iv.sections)
}

fn dump_pairs_into(out: &mut String, pairs: &Vec<(String, String)>)
    ensures
        final(out)@ == old(out)@ + dump_pairs(pairs_view(pairs@)),
{
    let ghost psv = pairs_view(pairs@);
    let n = pairs.len();
    let mut j: usize = 0;
    proof {
        assert(psv.skip(0) =~= psv);
    }
    while j < n
        invariant
            j <= n,
            n == pairs@.len(),
            psv == pairs_view(pairs@),
            out@ + dump_pairs(psv.skip(j as int)) =~= old(out)@ + dump_pairs(psv),
        decreases n - j,
    {
        let ghost pre = out@;
        proof {
            assert(psv.skip(j as int)[0] == psv[j as int]);
            assert(psv.skip(j as int).drop_first() =~= psv.skip(j + 1));
        }
        out.append("  ");
        out.append(pairs[j].0.as_str());
        out.append(" = ");
        out.append(pairs[j].1.as_str());
        out.append("\n");
        proof {
            assert(out@ =~= pre + ("  "@ + psv[j as int].0 + " = "@ + psv[j as int].1 + "\n"@));
            assert(out@ + dump_pairs(psv.skip(j + 1)) =~= pre + dump_pairs(psv.skip(j as int)));
        }
        j += 1;
    }
    proof {
        assert(psv.skip(n as int) =~= Seq::<(Seq<char>, Seq<char>)>::empty());
        assert(out@ =~= out@ + dump_pairs(psv.skip(n as int)));
    }
}

impl IniFile {
    /// A human-readable listing of the parsed file, for diagnostics.
    pub fn dump(&self) -> (r: String)
        requires
            self.wf(),
        ensures
            r@ == dump_spec(self@),
    {
        let mut out = "Line ending: ".to_owned();
        if str_eq(self.line_ending.as_str(), "\r\n") {
            out.append("\"\\r\\n\"");
        } else {
            out.append("\"\\n\"");
        }
        out.append("\n");
        let ghost head = out@;
        proof {
            assert(head =~= "Line ending: "@ + dump_quoted(self.line_ending@) + "\n"@);
        }
        let ghost ssv = sections_view(self.sections@);
        let n = self.sections.len();
        let mut i: usize = 0;
        proof {
            assert(ssv.skip(0) =~= ssv);
            assert(out@ + dump_sections(ssv.skip(0)) =~= head + dump_sections(ssv));
        }
        while i < n
            invariant
                i <= n,
                n == self.sections@.len(),
                ssv == sections_view(self.sections@),
                head == "Line ending: "@ + dump_quoted(self@.line_ending) + "\n"@,
                out@ + dump_sections(ssv.skip(i as int)) =~= head + dump_sections(ssv),
            decreases n - i,
        {
            let ghost pre = out@;
            proof {
                assert(ssv.skip(i as int)[0] == ssv[i as int]);
                assert(ssv.skip(i as int).drop_first() =~= ssv.skip(i + 1));
            }
            out.append("[");
            out.append(self.sections[i].0.as_str());
            out.append("]\n");
            let ghost mid = out@;
            proof {
                assert(mid =~= pre + ("["@ + ssv[i as int].0 + "]\n"@));
            }
            dump_pairs_into(&mut out, &self.sections[i].1);
            proof {
                assert(out@ + dump_sections(ssv.skip(i + 1)) =~= pre + dump_sections(
                    ssv.skip(i as int),
                ));
            }
            i += 1;
        }
        proof {
            assert(ssv.skip(n as int) =~= Seq::<(Seq<char>, Seq<(Seq<char>, Seq<char>)>)>::empty());
            assert(out@ =~= out@ + dump_sections(ssv.skip(n as int)));
            assert(out@ =~= dump_spec(self@));
        }
        out
    }
}

/// The launcher's display settings written into the game's INI content, one
/// `set` after another.
pub open spec fn apply_game_settings_spec(
    iv: IniView,
    hd_version: bool,
    fullscreen: bool,
    window_w: int,
    window_h: int,
    fullscreen_w: int,
    fullscreen_h: int,
) -> IniView {
    let a = ini_set_spec(
        iv,
        "VIDEO"@,
        "GRAPHICS_VER"@,
        if hd_version {
            "1"@
        } else {
            "0"@
        },
    );
    let b = ini_set_spec(
        a,
        "SCREEN"@,
        "FULLSCREEN_MODE"@,
        if fullscreen {
            "1"@
        } else {
            "0"@
        },
    );
    let c = ini_set_spec(b, "SCREEN"@, "WINDOW_RESOLUTION_W"@, dec_digits(window_w));
    let d = ini_set_spec(c, "SCREEN"@, "WINDOW_RESOLUTION_H"@, dec_digits(window_h));
    let e = ini_set_spec(d, "SCREEN"@, "FULLSCREEN_RESOLUTION_W"@, dec_digits(fullscreen_w));
    ini_set_spec(e, "SCREEN"@, "FULLSCREEN_RESOLUTION_H"@, dec_digits(fullscreen_h))
}

/// Applies the launcher's display settings to parsed INI content: graphics
/// version, fullscreen mode, and the four resolution values.
pub fn apply_game_settings(
    ini: &mut IniFile,
    hd_version: bool,
    fullscreen: bool,
    window_w: u32,
    window_h: u32,
    fullscreen_w: u32,
    fullscreen_h: u32,
)
    ensures
        final(ini)@ == apply_game_settings_spec(
            old(ini)@,
            hd_version,
            fullscreen,
            window_w as int,
            window_h as int,
            fullscreen_w as int,
            fullscreen_h as int,
        ),
        final(ini).wf() == old(ini).wf(),
{
    ini.set(
        "VIDEO",
        "GRAPHICS_VER",
        if hd_version {
            "1"
        } else {
            "0"
        },
    );
    ini.set(
        "SCREEN",
        "FULLSCREEN_MODE",
        if fullscreen {
            "1"
        } else {
            "0"
        },
    );
    ini.set("SCREEN", "WINDOW_RESOLUTION_W", u32_to_string(window_w).as_str());
    ini.set("SCREEN", "WINDOW_RESOLUTION_H", u32_to_string(window_h).as_str());
    ini.set("SCREEN", "FULLSCREEN_RESOLUTION_W", u32_to_string(fullscreen_w).as_str());
    ini.set("SCREEN", "FULLSCREEN_RESOLUTION_H", u32_to_string(fullscreen_h).as_str());
}

/// What `get` returns, as a function of the file's content.
pub open spec fn ini_get_spec(iv: IniView, section: Seq<char>, key: Seq<char>) -> Option<
    Seq<char>,
> {
    let si = find_sec(iv.sections, section);
    if si == iv.sections.len() {
        None
    } else {
        let ps = iv.sections[si].1;
        let ki = find_key(ps, key);
        if ki == ps.len() {
            None
        } else {
            Some(ps[ki].1)
        }
    }
}

/// What `set` does to the file's content.
pub open spec fn ini_set_spec(
    iv: IniView,
    section: Seq<char>,
    key: Seq<char>,
    value: Seq<char>,
) -> IniView {
    let si = find_sec(iv.sections, section);
    if si == iv.sections.len() {
        IniView {
            sections: iv.sections.push((section, seq![(key, value)])),
            line_ending: iv.line_ending,
        }
    } else {
        let ps = iv.sections[si].1;
        let ki = find_key(ps, key);
        let ps2 = if ki == ps.len() {
            ps.push((key, value))
        } else {
            ps.update(ki, (key, value))
        };
        IniView {
            sections: iv.sections.update(si, (iv.sections[si].0, ps2)),
            line_ending: iv.line_ending,
        }
    }
}

} // verus!
