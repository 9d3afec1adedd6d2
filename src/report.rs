//! Reading a whole report: lines, groups, order.

use vstd::prelude::*;
use crate::grammar::{LineError, line_image, parse_line};
use crate::order::{
    first_path, groups_view, insert_group, keys_match, lemma_sort_sorted, lemma_sort_sorted_identity,
    sort_by_first, sorted_by_first,
};
use crate::store::{DupGroups, ImgInfo, ImgView, group_view, groups_nonempty};
use crate::text::{chars_of, string_of};

verus! {

/// The end of the line that starts at `i`: the next `'\n'`, or the end of the text.
pub open spec fn line_end(t: Seq<char>, i: int) -> int
    decreases t.len() - i,
{
    if 0 <= i < t.len() && t[i] != '\n' {
        line_end(t, i + 1)
    } else {
        i
    }
}

/// The text of the line `t[i..e]`, without the `'\r'` of a `"\r\n"` ending.
pub open spec fn line_text(t: Seq<char>, i: int, e: int) -> Seq<char> {
    if e < t.len() && i < e && t[e - 1] == '\r' {
        t.subrange(i, e - 1)
    } else {
        t.subrange(i, e)
    }
}

/// The lines of `t` from position `i` on. A final `'\n'` ends the last line
/// and starts no new one.
pub open spec fn lines_from(t: Seq<char>, i: int) -> Seq<Seq<char>>
    decreases t.len() - i,
{
    if i < 0 || i >= t.len() {
        Seq::empty()
    } else {
        let e = line_end(t, i);
        if e < i {
            Seq::empty()
        } else if e >= t.len() {
            seq![line_text(t, i, e)]
        } else {
            seq![line_text(t, i, e)] + lines_from(t, e + 1)
        }
    }
}

/// The lines of a report.
pub open spec fn report_lines(t: Seq<char>) -> Seq<Seq<char>> {
    lines_from(t, 0)
}

/// Whether a line continues the group of the line before it.
pub open spec fn continues_group(l: Seq<char>) -> bool {
    l.len() > 0 && l[0] == '\t'
}

/// The finished groups, with the group under way appended when it has images.
pub open spec fn flush(gs: Seq<Seq<ImgView>>, cur: Seq<ImgView>) -> Seq<Seq<ImgView>> {
    if cur.len() > 0 {
        gs.push(cur)
    } else {
        gs
    }
}

/// The finished groups and the group under way after reading `lines`, in
/// report order; or the first refused line, with the reason.
pub open spec fn collect(lines: Seq<Seq<char>>) -> Result<
    (Seq<Seq<ImgView>>, Seq<ImgView>),
    (LineError, Seq<char>),
>
    decreases lines.len(),
{
    if lines.len() == 0 {
        Ok((Seq::empty(), Seq::empty()))
    } else {
        match collect(lines.drop_last()) {
            Err(e) => Err(e),
            Ok((gs, cur)) => {
                let l = lines.last();
                let gs2 = if continues_group(l) { gs } else { flush(gs, cur) };
                let cur2 = if continues_group(l) { cur } else { Seq::empty() };
                match line_image(l) {
                    Err(k) => Err((k, l)),
                    Ok(img) => Ok((gs2, cur2.push(img))),
                }
            },
        }
    }
}

/// The groups of a report, ordered by their first paths; or the first refused
/// line, with the reason.
pub open spec fn report_groups(t: Seq<char>) -> Result<Seq<Seq<ImgView>>, (LineError, Seq<char>)> {
    match collect(report_lines(t)) {
        Err(e) => Err(e),
        Ok((gs, cur)) => Ok(sort_by_first(flush(gs, cur))),
    }
}

/// A report line that could not be read.
#[derive(Debug)]
pub struct ParseError {
    pub kind: LineError,
    /// The line as it stands in the report.
    pub line: String,
}

impl ParseError {
    /// A description of the error that names the line.
    pub fn message(&self) -> (r: String)
        ensures
            self.kind == LineError::Malformed ==> r@ == "Line does not match expected format: "@ + self.line@,
            self.kind == LineError::NumberTooLarge ==> r@ == "Width or height out of range on line: "@ + self.line@,
    {
        let prefix = match self.kind {
            LineError::Malformed => String::from_str("Line does not match expected format: "),
            LineError::NumberTooLarge => String::from_str("Width or height out of range on line: "),
        };
        prefix.concat(self.line.as_str())
    }
}

proof fn lemma_collect_err(a: Seq<Seq<char>>, b: Seq<Seq<char>>)
    requires
        collect(a) is Err,
    ensures
        collect(a + b) == collect(a),
    decreases b.len(),
{
    if b.len() > 0 {
        lemma_collect_err(a, b.drop_last());
        assert((a + b).drop_last() =~= a + b.drop_last());
    } else {
        assert(a + b =~= a);
    }
}

/// Copies `t[from..to]`.
fn copy_range(t: &Vec<char>, from: usize, to: usize) -> (r: Vec<char>)
    requires
        from <= to <= t@.len(),
    ensures
        r@ == t@.subrange(from as int, to as int),
{
    let mut r: Vec<char> = Vec::new();
    let mut i: usize = from;
    while i < to
        invariant
            from <= i <= to <= t@.len(),
            r@ == t@.subrange(from as int, i as int),
        decreases to - i,
    {
        r.push(t[i]);
        i = i + 1;
        assert(r@ =~= t@.subrange(from as int, i as int));
    }
    r
}

} // verus!

verus! {

/// Reads a report: one group per line that does not start with a tab, each
/// line that starts with a tab adding an image to the group before it. The
/// groups come out ordered by their first paths; with equal first paths, in
/// report order.
pub fn parse_dups(text: &str) -> (r: Result<DupGroups, ParseError>)
    ensures
        match report_groups(text@) {
            Ok(gs) => r matches Ok(d) && d@ == gs && d.wf(),
            Err((k, l)) => r matches Err(e) && e.kind == k && e.line@ == l,
        },
{
    let t = chars_of(text);
    let n = t.len();
    let mut keys: Vec<Vec<char>> = Vec::new();
    let mut groups: Vec<Vec<ImgInfo>> = Vec::new();
    let mut cur: Vec<ImgInfo> = Vec::new();
    let mut cur_key: Vec<char> = Vec::new();
    let ghost mut seen: Seq<Seq<char>> = Seq::empty();
    let ghost mut done: Seq<Seq<ImgView>> = Seq::empty();
    let mut pos: usize = 0;
    assert(groups_view(groups@) =~= sort_by_first(done));
    assert(group_view(cur@) =~= Seq::<ImgView>::empty());
    assert(report_lines(t@) =~= seen + lines_from(t@, 0));
    while pos < n
        invariant
            t@ == text@,
            n == t@.len(),
            pos <= n,
            report_lines(t@) == seen + lines_from(t@, pos as int),
            collect(seen) == Ok::<(Seq<Seq<ImgView>>, Seq<ImgView>), (LineError, Seq<char>)>(
                (done, group_view(cur@)),
            ),
            groups_view(groups@) == sort_by_first(done),
            keys_match(keys@, groups@),
            groups_nonempty(groups_view(groups@)),
            cur@.len() > 0 ==> cur_key@ == first_path(group_view(cur@)),
        decreases n - pos,
    {
        let mut e: usize = pos;
        while e < n && t[e] != '\n'
            invariant
                pos <= e <= n,
                n == t@.len(),
                line_end(t@, pos as int) == line_end(t@, e as int),
            decreases n - e,
        {
            e = e + 1;
        }
        let stop: usize = if e < n && e > pos && t[e - 1] == '\r' {
            e - 1
        } else {
            e
        };
        let line = copy_range(&t, pos, stop);
        let next: usize = if e < n {
            e + 1
        } else {
            n
        };
        proof {
            assert(line@ == line_text(t@, pos as int, e as int));
            assert(lines_from(t@, pos as int) =~= seq![line@] + lines_from(t@, next as int));
            assert(report_lines(t@) =~= seen.push(line@) + lines_from(t@, next as int));
            assert(seen.push(line@).drop_last() =~= seen);
            seen = seen.push(line@);
        }
        let ghost cv = group_view(cur@);
        if !(line.len() > 0 && line[0] == '\t') {
            if cur.len() > 0 {
                insert_group(&mut keys, &mut groups, cur_key, cur);
                proof {
                    assert(done.push(cv).drop_last() =~= done);
                }
            }
            proof {
                done = if cv.len() > 0 { done.push(cv) } else { done };
            }
            cur = Vec::new();
            cur_key = Vec::new();
            assert(group_view(cur@) =~= Seq::<ImgView>::empty());
        }
        let ghost cv2 = group_view(cur@);
        assert(cv2 == if continues_group(line@) { cv } else { Seq::empty() });
        match parse_line(&line) {
            Err(k) => {
                proof {
                    lemma_collect_err(seen, lines_from(t@, next as int));
                }
                let l = string_of(&line, 0, line.len());
                assert(l@ =~= line@);
                return Err(ParseError { kind: k, line: l });
            },
            Ok((p, w, h)) => {
                let ghost before = group_view(cur@);
                if cur.len() == 0 {
                    cur_key = copy_range(&line, p, line.len());
                }
                let img = ImgInfo { path: string_of(&line, p, line.len()), width: w, height: h };
                cur.push(img);
                assert(group_view(cur@) =~= before.push(img@));
                assert(line_image(line@) == Ok::<ImgView, LineError>(img@));
            },
        }
        pos = next;
    }
    assert(report_lines(t@) =~= seen);
    if cur.len() > 0 {
        let ghost cv = group_view(cur@);
        insert_group(&mut keys, &mut groups, cur_key, cur);
        proof {
            assert(done.push(cv).drop_last() =~= done);
        }
    }
    let d = DupGroups { groups };
    assert(d@ =~= groups_view(d.groups@));
    Ok(d)
}

} // verus!

verus! {

/// Every line that `collect` reads before the first refused one is accepted.
pub open spec fn first_refused(lines: Seq<Seq<char>>, i: int) -> bool {
    &&& 0 <= i < lines.len()
    &&& line_image(lines[i]) is Err
    &&& forall|j: int| 0 <= j < i ==> line_image(#[trigger] lines[j]) is Ok
}

proof fn lemma_collect_outcome(lines: Seq<Seq<char>>)
    ensures
        collect(lines) is Ok <==> forall|j: int| 0 <= j < lines.len() ==> line_image(#[trigger] lines[j]) is Ok,
        collect(lines) matches Err((k, l)) ==> exists|i: int| #[trigger] first_refused(lines, i)
            && lines[i] == l && line_image(l) == Err::<ImgView, LineError>(k),
    decreases lines.len(),
{
    if lines.len() > 0 {
        let d = lines.drop_last();
        lemma_collect_outcome(d);
        assert forall|j: int| 0 <= j < d.len() implies #[trigger] d[j] == lines[j] by {}
        if let Err((k, l)) = collect(d) {
            let i = choose|i: int| #[trigger] first_refused(d, i) && d[i] == l
                && line_image(l) == Err::<ImgView, LineError>(k);
            assert forall|j2: int| 0 <= j2 < i implies line_image(#[trigger] lines[j2]) is Ok by {
                assert(d[j2] == lines[j2]);
            }
            assert(first_refused(lines, i));
        } else if line_image(lines.last()) is Err {
            assert forall|j2: int| 0 <= j2 < lines.len() - 1 implies line_image(
                #[trigger] lines[j2],
            ) is Ok by {
                assert(d[j2] == lines[j2]);
            }
            assert(first_refused(lines, lines.len() - 1));
        } else {
            assert forall|j2: int| 0 <= j2 < lines.len() implies line_image(
                #[trigger] lines[j2],
            ) is Ok by {
                if j2 < lines.len() - 1 {
                    assert(d[j2] == lines[j2]);
                }
            }
        }
    }
}

/// A report with a line outside the grammar is refused, and the error holds the
/// first such line of the report, with the reason.
pub proof fn lemma_bad_line_refused(t: Seq<char>, j: int)
    requires
        0 <= j < report_lines(t).len(),
        line_image(report_lines(t)[j]) is Err,
    ensures
        report_groups(t) matches Err((k, l)) && exists|i: int| #[trigger] first_refused(report_lines(t), i)
            && i <= j && report_lines(t)[i] == l && line_image(l) == Err::<ImgView, LineError>(k),
{
    lemma_collect_outcome(report_lines(t));
}

/// Reading a report gives its groups ordered by their first paths, so that
/// ordering them again changes nothing; with `parse_dups` returning exactly
/// `report_groups`, two reads of one text give the same groups.
pub proof fn lemma_parse_ordered(t: Seq<char>)
    ensures
        report_groups(t) matches Ok(gs) ==> sorted_by_first(gs) && sort_by_first(gs) == gs,
{
    if let Ok((gs, cur)) = collect(report_lines(t)) {
        lemma_sort_sorted(flush(gs, cur));
        lemma_sort_sorted_identity(sort_by_first(flush(gs, cur)));
    }
}

} // verus!
