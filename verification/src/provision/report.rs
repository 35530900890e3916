//! report: verify's report and its exit-code policy.

use vstd::prelude::*;
use crate::text::chars_of;

verus! {

#[derive(Debug)]
pub struct Check {
    pub name: &'static str,
    pub pass: bool,
    pub detail: String,
}

/// The model of a check.
pub ghost struct CheckView {
    pub name: Seq<char>,
    pub pass: bool,
    pub detail: Seq<char>,
}

impl View for Check {
    type V = CheckView;

    open spec fn view(&self) -> CheckView {
        CheckView { name: self.name@, pass: self.pass, detail: self.detail@ }
    }
}

/// The models of a list of checks.
pub open spec fn checks(rows: Seq<Check>) -> Seq<CheckView> {
    rows.map_values(|c: Check| c@)
}

impl Check {
    pub fn new(name: &'static str, pass: bool, detail: &str) -> (c: Check)
        ensures
            c@ == (CheckView { name: name@, pass, detail: detail@ }),
    {
        Check { name, pass, detail: detail.to_owned() }
    }
}

/// As many spaces as a text needs to be `width` characters long.
pub open spec fn padding(len: nat, width: nat) -> Seq<char> {
    Seq::new(
        if len < width {
            (width - len) as nat
        } else {
            0
        },
        |i: int| ' ',
    )
}

/// A check in the report.
pub open spec fn row_text(c: CheckView) -> Seq<char> {
    "["@ + (if c.pass {
        "PASS"@
    } else {
        "FAIL"@
    }) + "] "@ + c.name + padding(c.name.len(), 28) + " "@ + c.detail
}

/// The report: one line per check.
pub open spec fn report_text(rows: Seq<CheckView>) -> Seq<char>
    decreases rows.len(),
{
    if rows.len() == 0 {
        Seq::empty()
    } else if rows.len() == 1 {
        row_text(rows[0])
    } else {
        report_text(rows.drop_last()) + seq!['\n'] + row_text(rows.last())
    }
}

fn push_row(out: &mut String, row: &Check)
    ensures
        final(out)@ == old(out)@ + row_text(row@),
{
    out.append("[");
    out.append(
        if row.pass {
            "PASS"
        } else {
            "FAIL"
        },
    );
    out.append("] ");
    out.append(row.name);
    let name: Vec<char> = chars_of(row.name);
    let mut n: usize = name.len();
    let ghost before = out@;
    let ghost len = name@.len();
    assert(before + padding(len, 28).take(0) =~= before);
    while n < 28
        invariant
            len <= n,
            n <= 28 || n == len,
            out@ == before + padding(len, 28).take(n - len),
        decreases 28 - n,
    {
        out.push(' ');
        assert(out@ =~= before + padding(len, 28).take(n + 1 - len));
        n += 1;
    }
    assert(padding(len, 28).take(n - len) =~= padding(len, 28));
    out.append(" ");
    out.append(row.detail.as_str());
    assert(out@ =~= old(out)@ + row_text(row@));
}

/// Render an aligned PASS/FAIL table.
pub fn format_report(rows: &[Check]) -> (out: String)
    ensures
        out@ == report_text(checks(rows@)),
{
    let mut out: String = String::new();
    let ghost all = checks(rows@);
    let mut i: usize = 0;
    assert(all.take(0) =~= Seq::<CheckView>::empty());
    while i < rows.len()
        invariant
            i <= rows@.len(),
            all == checks(rows@),
            out@ == report_text(all.take(i as int)),
        decreases rows@.len() - i,
    {
        let ghost before = out@;
        let ghost now = all.take(i + 1);
        proof {
            assert(now.drop_last() =~= all.take(i as int));
            assert(now.last() == rows@[i as int]@);
        }
        if i > 0 {
            out.push('\n');
        }
        push_row(&mut out, &rows[i]);
        assert(out@ =~= report_text(now));
        i += 1;
    }
    assert(all.take(i as int) =~= all);
    out
}

/// Whether there is a check and every check passed.
pub open spec fn all_pass(rows: Seq<CheckView>) -> bool {
    rows.len() > 0 && forall|i: int| 0 <= i < rows.len() ==> (#[trigger] rows[i]).pass
}

/// 0 if and only if there is at least one check and every check passed; otherwise 1. An empty
/// report never reads as success.
pub fn verify_exit_code(rows: &[Check]) -> (code: i32)
    ensures
        code == if all_pass(checks(rows@)) {
            0i32
        } else {
            1i32
        },
{
    let ghost all = checks(rows@);
    if rows.len() == 0 {
        return 1;
    }
    let mut i: usize = 0;
    while i < rows.len()
        invariant
            i <= rows@.len(),
            rows@.len() > 0,
            all == checks(rows@),
            forall|j: int| 0 <= j < i ==> (#[trigger] all[j]).pass,
        decreases rows@.len() - i,
    {
        assert(all[i as int] == rows@[i as int]@);
        if !rows[i].pass {
            return 1;
        }
        i += 1;
    }
    0
}

// Laws.

/// One failed check fails the whole report, wherever it stands.
pub proof fn law_one_failure_fails_the_report(rows: Seq<CheckView>, i: int)
    requires
        0 <= i < rows.len(),
        !rows[i].pass,
    ensures
        !all_pass(rows),
{
}

/// The exit code is 0 exactly where there is a row and every row passes, and 1 otherwise.
pub proof fn law_exit_code(rows: &[Check], code: i32)
    requires
        call_ensures(verify_exit_code, (rows,), code),
    ensures
        code == 0 || code == 1,
        code == 0 <==> rows@.len() > 0 && forall|i: int|
            0 <= i < rows@.len() ==> (#[trigger] rows@[i]).pass,
{
    let views = checks(rows@);
    assert forall|i: int| 0 <= i < rows@.len() implies views[i].pass == (#[trigger] rows@[i]).pass by {
    }
    if forall|i: int| 0 <= i < rows@.len() ==> (#[trigger] rows@[i]).pass {
        assert forall|i: int| 0 <= i < views.len() implies (#[trigger] views[i]).pass by {
            assert(rows@[i].pass);
        }
    }
    if all_pass(views) {
        assert forall|i: int| 0 <= i < rows@.len() implies (#[trigger] rows@[i]).pass by {
            assert(views[i].pass);
        }
    }
}

/// Every row is in the report, marked as what it is, with its name and its detail.
pub proof fn law_every_row_is_listed(rows: Seq<CheckView>, i: int)
    requires
        0 <= i < rows.len(),
    ensures
        crate::text::holds(report_text(rows), row_text(rows[i])),
        row_text(rows[i]).take(6) == if rows[i].pass {
            seq!['[', 'P', 'A', 'S', 'S', ']']
        } else {
            seq!['[', 'F', 'A', 'I', 'L', ']']
        },
        crate::text::holds(row_text(rows[i]), rows[i].name),
        crate::text::holds(row_text(rows[i]), rows[i].detail),
    decreases rows.len(),
{
    let c = rows[i];
    let row = row_text(c);
    reveal_strlit("[");
    reveal_strlit("PASS");
    reveal_strlit("FAIL");
    reveal_strlit("] ");
    reveal_strlit(" ");
    assert(row.take(6) =~= if c.pass {
        seq!['[', 'P', 'A', 'S', 'S', ']']
    } else {
        seq!['[', 'F', 'A', 'I', 'L', ']']
    });
    assert(row.subrange(7, 7int + c.name.len()) =~= c.name);
    assert(crate::text::stands_at(row, c.name, 7));
    let n = row.len() - c.detail.len();
    assert(row.subrange(n, n + c.detail.len()) =~= c.detail);
    assert(crate::text::stands_at(row, c.detail, n));
    let text = report_text(rows);
    if rows.len() == 1 {
        assert(text.subrange(0, 0int + row.len()) =~= row);
        assert(crate::text::stands_at(text, row, 0));
    } else if i == rows.len() - 1 {
        let at = text.len() - row.len();
        assert(text.subrange(at, at + row.len()) =~= row);
        assert(crate::text::stands_at(text, row, at));
    } else {
        let front = rows.drop_last();
        law_every_row_is_listed(front, i);
        let before = report_text(front);
        let at = choose|at: int| crate::text::stands_at(before, row, at);
        assert(text.subrange(at, at + row.len()) =~= before.subrange(at, at + row.len()));
        assert(crate::text::stands_at(text, row, at));
    }
}

} // verus!
