//! Parsing of a branch-annotated, machine-readable status query's output into
//! a structured record: header lines (marked with `#`) feed the branch text,
//! every other line feeds the change listing, and a repository is clean
//! exactly when the trimmed change listing is empty.

use vstd::prelude::*;
use crate::text::{
    chars_of, push_chars, split_lines, string_from_chars, strip_hashes, strip_hashes_vec,
    trim_chars, trim_vec,
};

verus! {

/// The status of one repository, as one row of the report.
#[derive(Debug)]
pub struct Status {
    /// The final path component of the repository path.
    pub name: String,
    /// The status query's exit code, absent where none could be obtained.
    pub command_status: Option<i32>,
    /// The branch and tracking information, from the header lines.
    pub branch: String,
    /// Whether the repository has no pending changes.
    pub clean: bool,
    /// The change listing, from the non-header lines.
    pub changes: String,
}

/// Whether a line of status output carries branch information: it begins with
/// the header marker.
pub open spec fn is_header_line(l: Seq<char>) -> bool {
    l.len() > 0 && l[0] == '#'
}

/// The branch accumulator over a sequence of lines: every header line, with
/// its leading run of markers stripped, followed by a newline.
pub open spec fn branch_acc(ls: Seq<Seq<char>>) -> Seq<char>
    decreases ls.len(),
{
    if ls.len() == 0 {
        Seq::empty()
    } else {
        branch_acc(ls.drop_last()) + (if is_header_line(ls.last()) {
            strip_hashes(ls.last()).push('\n')
        } else {
            Seq::empty()
        })
    }
}

/// The changes accumulator over a sequence of lines: every non-header line,
/// blank lines included, followed by a newline.
pub open spec fn changes_acc(ls: Seq<Seq<char>>) -> Seq<char>
    decreases ls.len(),
{
    if ls.len() == 0 {
        Seq::empty()
    } else {
        changes_acc(ls.drop_last()) + (if !is_header_line(ls.last()) {
            ls.last().push('\n')
        } else {
            Seq::empty()
        })
    }
}

/// The branch field parsed from raw status output: the trimmed branch
/// accumulator over its lines.
pub open spec fn branch_of(out: Seq<char>) -> Seq<char> {
    trim_chars(branch_acc(split_lines(out)))
}

/// The changes field parsed from raw status output: the trimmed changes
/// accumulator over its lines.
pub open spec fn changes_of(out: Seq<char>) -> Seq<char> {
    trim_chars(changes_acc(split_lines(out)))
}

proof fn lemma_accs_push_line(ls: Seq<Seq<char>>, l: Seq<char>)
    ensures
        branch_acc(ls.push(l)) == branch_acc(ls) + (if is_header_line(l) {
            strip_hashes(l).push('\n')
        } else {
            Seq::<char>::empty()
        }),
        changes_acc(ls.push(l)) == changes_acc(ls) + (if !is_header_line(l) {
            l.push('\n')
        } else {
            Seq::<char>::empty()
        }),
{
    assert(ls.push(l).drop_last() =~= ls);
    assert(ls.push(l).last() == l);
}

/// Parses the raw output of the status query for one repository. Lines that
/// begin with the header marker contribute, markers stripped, to the branch
/// field; all other lines contribute to the changes field; both are trimmed,
/// and the repository is clean exactly when the trimmed changes are empty.
/// The name and exit code are recorded unchanged.
pub fn parse_status(output: &str, command_status: Option<i32>, name: String) -> (r: Status)
    ensures
        r.branch@ == branch_of(output@),
        r.changes@ == changes_of(output@),
        r.clean == (changes_of(output@).len() == 0),
        r.name == name,
        r.command_status == command_status,
{
    let chars = chars_of(output);
    let n = chars.len();
    let mut bacc: Vec<char> = Vec::new();
    let mut cacc: Vec<char> = Vec::new();
    let mut cur: Vec<char> = Vec::new();
    let mut k: usize = 0;
    while k < n
        invariant
            0 <= k <= n,
            n == chars@.len(),
            chars@ == output@,
            split_lines(chars@.take(k as int)).len() >= 1,
            split_lines(chars@.take(k as int)).last() == cur@,
            bacc@ == branch_acc(split_lines(chars@.take(k as int)).drop_last()),
            cacc@ == changes_acc(split_lines(chars@.take(k as int)).drop_last()),
        decreases n - k,
    {
        let ghost t = chars@.take(k as int);
        let ghost tp = chars@.take(k + 1);
        let c = chars[k];
        proof {
            assert(tp =~= t.push(c));
        }
        if c == '\n' {
            proof {
                crate::text::lemma_split_lines_push_nl(t);
                lemma_accs_push_line(split_lines(t).drop_last(), cur@);
                assert(split_lines(t).drop_last().push(cur@) =~= split_lines(t));
            }
            if cur.len() > 0 && cur[0] == '#' {
                let stripped = strip_hashes_vec(&cur);
                push_chars(&mut bacc, &stripped);
                bacc.push('\n');
                assert(bacc@ =~= branch_acc(split_lines(tp).drop_last()));
                assert(cacc@ =~= changes_acc(split_lines(tp).drop_last()));
            } else {
                push_chars(&mut cacc, &cur);
                cacc.push('\n');
                assert(bacc@ =~= branch_acc(split_lines(tp).drop_last()));
                assert(cacc@ =~= changes_acc(split_lines(tp).drop_last()));
            }
            cur = Vec::new();
        } else {
            proof {
                crate::text::lemma_split_lines_push_char(t, c);
            }
            cur.push(c);
        }
        k = k + 1;
    }
    proof {
        assert(chars@.take(n as int) =~= chars@);
        lemma_accs_push_line(split_lines(chars@).drop_last(), cur@);
        assert(split_lines(chars@).drop_last().push(cur@) =~= split_lines(chars@));
    }
    if cur.len() > 0 && cur[0] == '#' {
        let stripped = strip_hashes_vec(&cur);
        push_chars(&mut bacc, &stripped);
        bacc.push('\n');
        assert(bacc@ =~= branch_acc(split_lines(output@)));
        assert(cacc@ =~= changes_acc(split_lines(output@)));
    } else {
        push_chars(&mut cacc, &cur);
        cacc.push('\n');
        assert(bacc@ =~= branch_acc(split_lines(output@)));
        assert(cacc@ =~= changes_acc(split_lines(output@)));
    }
    let btr = trim_vec(&bacc);
    let ctr = trim_vec(&cacc);
    let clean = ctr.len() == 0;
    let branch = string_from_chars(&btr);
    let changes = string_from_chars(&ctr);
    Status { name, command_status, branch, clean, changes }
}

} // verus!
