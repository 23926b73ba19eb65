//! HTML block boundaries (CommonMark 0.31.2 §4.6): whether a line starts
//! an HTML block, and which kind of line ends it. The HTML itself stays
//! opaque text.
use vstd::prelude::*;
use vstd::string::StringSliceAdditionalSpecFns;
use crate::text::{alnum, alpha, has_prefix, range_eq_ignore_case, lower_seq, starts_with_at};

verus! {

/// How an HTML block ends.
#[derive(Clone, Copy)]
pub enum HtmlEnd {
    /// A line containing `</pre>`, `</script>`, `</style>` or `</textarea>`
    /// (any case).
    RawText,
    /// A line containing the delimiter.
    Delimiter(&'static str),
    /// A blank line (the caller checks blankness).
    Blank,
}

/// Start of an HTML block: how it ends, and whether it may interrupt a
/// paragraph.
pub struct HtmlStart {
    pub end: HtmlEnd,
    pub interrupts_paragraph: bool,
}

/// `lit` occurs in `s`, compared in ASCII lowercase when `ci`.
pub open spec fn occurs(s: Seq<u8>, lit: Seq<u8>, ci: bool) -> bool {
    exists|k: int|
        0 <= k && k + lit.len() <= s.len() && (if ci {
            lower_seq(#[trigger] s.subrange(k, k + lit.len())) == lower_seq(lit)
        } else {
            #[trigger] s.subrange(k, k + lit.len()) == lit
        })
}

/// Whether `lit` occurs in `b` (ASCII case-insensitively when `ci`).
fn contains_lit(b: &[u8], lit: &[u8], ci: bool) -> (r: bool)
    ensures
        r == occurs(b@, lit@, ci),
{
    let n = b.len();
    let m = lit.len();
    if m > n {
        return false;
    }
    if m == 0 {
        proof {
            assert(b@.subrange(0int, 0int + lit@.len()) =~= lit@);
            assert(lower_seq(b@.subrange(0int, 0int + lit@.len())) =~= lower_seq(lit@));
        }
        return true;
    }
    let mut k: usize = 0;
    while k <= n - m
        invariant
            m <= n == b@.len(),
            1 <= m == lit@.len(),
            k <= n - m + 1,
            forall|j: int|
                0 <= j < k ==> !(if ci {
                    lower_seq(#[trigger] b@.subrange(j, j + lit@.len())) == lower_seq(lit@)
                } else {
                    b@.subrange(j, j + lit@.len()) == lit@
                }),
        decreases n - m + 1 - k,
    {
        let hit = if ci {
            range_eq_ignore_case(b, k, k + m, lit)
        } else {
            crate::text::range_eq(b, k, k + m, lit)
        };
        if hit {
            return true;
        }
        k = k + 1;
    }
    proof {
        assert forall|j: int| 0 <= j && j + lit@.len() <= b@.len() implies !(if ci {
            lower_seq(#[trigger] b@.subrange(j, j + lit@.len())) == lower_seq(lit@)
        } else {
            b@.subrange(j, j + lit@.len()) == lit@
        }) by {
            assert(j < k);
        }
    }
    false
}

impl HtmlEnd {
    /// Whether `line` ends an HTML block of this kind.
    pub fn closes(self, line: &str) -> (r: bool)
        ensures
            self is Blank ==> !r,
            self matches HtmlEnd::Delimiter(d) ==> r == occurs(line.spec_bytes(), d.spec_bytes(), false),
            self is RawText ==> r == (occurs(line.spec_bytes(), seq![60u8, 47u8, 112u8, 114u8, 101u8, 62u8], true)
                || occurs(line.spec_bytes(), seq![60u8, 47u8, 115u8, 99u8, 114u8, 105u8, 112u8, 116u8, 62u8], true)
                || occurs(line.spec_bytes(), seq![60u8, 47u8, 115u8, 116u8, 121u8, 108u8, 101u8, 62u8], true)
                || occurs(
                line.spec_bytes(),
                seq![60u8, 47u8, 116u8, 101u8, 120u8, 116u8, 97u8, 114u8, 101u8, 97u8, 62u8],
                true,
            )),
    {
        let b = line.as_bytes();
        match self {
            HtmlEnd::RawText => {
                let pre: [u8; 6] = [60u8, 47u8, 112u8, 114u8, 101u8, 62u8];
                let script: [u8; 9] = [60u8, 47u8, 115u8, 99u8, 114u8, 105u8, 112u8, 116u8, 62u8];
                let style: [u8; 8] = [60u8, 47u8, 115u8, 116u8, 121u8, 108u8, 101u8, 62u8];
                let textarea: [u8; 11] = [
                    60u8, 47u8, 116u8, 101u8, 120u8, 116u8, 97u8, 114u8, 101u8, 97u8, 62u8,
                ];
                proof {
                    assert(pre@ =~= seq![60u8, 47u8, 112u8, 114u8, 101u8, 62u8]);
                    assert(script@ =~= seq![60u8, 47u8, 115u8, 99u8, 114u8, 105u8, 112u8, 116u8, 62u8]);
                    assert(style@ =~= seq![60u8, 47u8, 115u8, 116u8, 121u8, 108u8, 101u8, 62u8]);
                    assert(textarea@ =~= seq![60u8, 47u8, 116u8, 101u8, 120u8, 116u8, 97u8, 114u8, 101u8, 97u8, 62u8]);
                }
                contains_lit(b, pre.as_slice(), true) || contains_lit(b, script.as_slice(), true)
                    || contains_lit(b, style.as_slice(), true) || contains_lit(
                    b,
                    textarea.as_slice(),
                    true,
                )
            },
            HtmlEnd::Delimiter(end) => contains_lit(b, end.as_bytes(), false),
            HtmlEnd::Blank => false,
        }
    }
}

/// Position `i` ends a tag name: the end of the line, a space, a tab or `>`.
pub open spec fn name_end_ok(s: Seq<u8>, i: int) -> bool {
    i >= s.len() || s[i] == 32u8 || s[i] == 9u8 || s[i] == 62u8
}

/// Whether position `i` ends a tag name.
fn tag_name_end_ok(b: &[u8], i: usize) -> (r: bool)
    ensures
        r == name_end_ok(b@, i as int),
{
    i >= b.len() || b[i] == 32u8 || b[i] == 9u8 || b[i] == 62u8
}

/// `s[a..z]` equals `lit` in any case.
pub open spec fn ci_is(s: Seq<u8>, a: int, z: int, lit: Seq<u8>) -> bool {
    lower_seq(s.subrange(a, z)) == lower_seq(lit)
}

/// `s[a..z]` names one of the block-level HTML tags (any case).
pub open spec fn block_tag(s: Seq<u8>, a: int, z: int) -> bool {
    ||| ci_is(s, a, z, seq![97u8, 100u8, 100u8, 114u8, 101u8, 115u8, 115u8])
    ||| ci_is(s, a, z, seq![97u8, 114u8, 116u8, 105u8, 99u8, 108u8, 101u8])
    ||| ci_is(s, a, z, seq![97u8, 115u8, 105u8, 100u8, 101u8])
    ||| ci_is(s, a, z, seq![98u8, 97u8, 115u8, 101u8])
    ||| ci_is(s, a, z, seq![98u8, 97u8, 115u8, 101u8, 102u8, 111u8, 110u8, 116u8])
    ||| ci_is(s, a, z, seq![98u8, 108u8, 111u8, 99u8, 107u8, 113u8, 117u8, 111u8, 116u8, 101u8])
    ||| ci_is(s, a, z, seq![98u8, 111u8, 100u8, 121u8])
    ||| ci_is(s, a, z, seq![99u8, 97u8, 112u8, 116u8, 105u8, 111u8, 110u8])
    ||| ci_is(s, a, z, seq![99u8, 101u8, 110u8, 116u8, 101u8, 114u8])
    ||| ci_is(s, a, z, seq![99u8, 111u8, 108u8])
    ||| ci_is(s, a, z, seq![99u8, 111u8, 108u8, 103u8, 114u8, 111u8, 117u8, 112u8])
    ||| ci_is(s, a, z, seq![100u8, 100u8])
    ||| ci_is(s, a, z, seq![100u8, 101u8, 116u8, 97u8, 105u8, 108u8, 115u8])
    ||| ci_is(s, a, z, seq![100u8, 105u8, 97u8, 108u8, 111u8, 103u8])
    ||| ci_is(s, a, z, seq![100u8, 105u8, 114u8])
    ||| ci_is(s, a, z, seq![100u8, 105u8, 118u8])
    ||| ci_is(s, a, z, seq![100u8, 108u8])
    ||| ci_is(s, a, z, seq![100u8, 116u8])
    ||| ci_is(s, a, z, seq![102u8, 105u8, 101u8, 108u8, 100u8, 115u8, 101u8, 116u8])
    ||| ci_is(s, a, z, seq![102u8, 105u8, 103u8, 99u8, 97u8, 112u8, 116u8, 105u8, 111u8, 110u8])
    ||| ci_is(s, a, z, seq![102u8, 105u8, 103u8, 117u8, 114u8, 101u8])
    ||| ci_is(s, a, z, seq![102u8, 111u8, 111u8, 116u8, 101u8, 114u8])
    ||| ci_is(s, a, z, seq![102u8, 111u8, 114u8, 109u8])
    ||| ci_is(s, a, z, seq![102u8, 114u8, 97u8, 109u8, 101u8])
    ||| ci_is(s, a, z, seq![102u8, 114u8, 97u8, 109u8, 101u8, 115u8, 101u8, 116u8])
    ||| ci_is(s, a, z, seq![104u8, 49u8])
    ||| ci_is(s, a, z, seq![104u8, 50u8])
    ||| ci_is(s, a, z, seq![104u8, 51u8])
    ||| ci_is(s, a, z, seq![104u8, 52u8])
    ||| ci_is(s, a, z, seq![104u8, 53u8])
    ||| ci_is(s, a, z, seq![104u8, 54u8])
    ||| ci_is(s, a, z, seq![104u8, 101u8, 97u8, 100u8])
    ||| ci_is(s, a, z, seq![104u8, 101u8, 97u8, 100u8, 101u8, 114u8])
    ||| ci_is(s, a, z, seq![104u8, 114u8])
    ||| ci_is(s, a, z, seq![104u8, 116u8, 109u8, 108u8])
    ||| ci_is(s, a, z, seq![105u8, 102u8, 114u8, 97u8, 109u8, 101u8])
    ||| ci_is(s, a, z, seq![108u8, 101u8, 103u8, 101u8, 110u8, 100u8])
    ||| ci_is(s, a, z, seq![108u8, 105u8])
    ||| ci_is(s, a, z, seq![108u8, 105u8, 110u8, 107u8])
    ||| ci_is(s, a, z, seq![109u8, 97u8, 105u8, 110u8])
    ||| ci_is(s, a, z, seq![109u8, 101u8, 110u8, 117u8])
    ||| ci_is(s, a, z, seq![109u8, 101u8, 110u8, 117u8, 105u8, 116u8, 101u8, 109u8])
    ||| ci_is(s, a, z, seq![110u8, 97u8, 118u8])
    ||| ci_is(s, a, z, seq![110u8, 111u8, 102u8, 114u8, 97u8, 109u8, 101u8, 115u8])
    ||| ci_is(s, a, z, seq![111u8, 108u8])
    ||| ci_is(s, a, z, seq![111u8, 112u8, 116u8, 103u8, 114u8, 111u8, 117u8, 112u8])
    ||| ci_is(s, a, z, seq![111u8, 112u8, 116u8, 105u8, 111u8, 110u8])
    ||| ci_is(s, a, z, seq![112u8])
    ||| ci_is(s, a, z, seq![112u8, 97u8, 114u8, 97u8, 109u8])
    ||| ci_is(s, a, z, seq![115u8, 101u8, 97u8, 114u8, 99u8, 104u8])
    ||| ci_is(s, a, z, seq![115u8, 101u8, 99u8, 116u8, 105u8, 111u8, 110u8])
    ||| ci_is(s, a, z, seq![115u8, 117u8, 109u8, 109u8, 97u8, 114u8, 121u8])
    ||| ci_is(s, a, z, seq![116u8, 97u8, 98u8, 108u8, 101u8])
    ||| ci_is(s, a, z, seq![116u8, 98u8, 111u8, 100u8, 121u8])
    ||| ci_is(s, a, z, seq![116u8, 100u8])
    ||| ci_is(s, a, z, seq![116u8, 102u8, 111u8, 111u8, 116u8])
    ||| ci_is(s, a, z, seq![116u8, 104u8])
    ||| ci_is(s, a, z, seq![116u8, 104u8, 101u8, 97u8, 100u8])
    ||| ci_is(s, a, z, seq![116u8, 105u8, 116u8, 108u8, 101u8])
    ||| ci_is(s, a, z, seq![116u8, 114u8])
    ||| ci_is(s, a, z, seq![116u8, 114u8, 97u8, 99u8, 107u8])
    ||| ci_is(s, a, z, seq![117u8, 108u8])
}

/// `b[a..z]` names one of the block-level HTML tags (any case).
fn is_block_tag(b: &[u8], a: usize, z: usize) -> (r: bool)
    requires
        a <= z <= b@.len(),
    ensures
        r == block_tag(b@, a as int, z as int),
{
    let t0: [u8; 7] = [97u8, 100u8, 100u8, 114u8, 101u8, 115u8, 115u8];
    proof {
        assert(t0@ =~= seq![97u8, 100u8, 100u8, 114u8, 101u8, 115u8, 115u8]);
    }
    if range_eq_ignore_case(b, a, z, t0.as_slice()) {
        return true;
    }
    let t1: [u8; 7] = [97u8, 114u8, 116u8, 105u8, 99u8, 108u8, 101u8];
    proof {
        assert(t1@ =~= seq![97u8, 114u8, 116u8, 105u8, 99u8, 108u8, 101u8]);
    }
    if range_eq_ignore_case(b, a, z, t1.as_slice()) {
        return true;
    }
    let t2: [u8; 5] = [97u8, 115u8, 105u8, 100u8, 101u8];
    proof {
        assert(t2@ =~= seq![97u8, 115u8, 105u8, 100u8, 101u8]);
    }
    if range_eq_ignore_case(b, a, z, t2.as_slice()) {
        return true;
    }
    let t3: [u8; 4] = [98u8, 97u8, 115u8, 101u8];
    proof {
        assert(t3@ =~= seq![98u8, 97u8, 115u8, 101u8]);
    }
    if range_eq_ignore_case(b, a, z, t3.as_slice()) {
        return true;
    }
    let t4: [u8; 8] = [98u8, 97u8, 115u8, 101u8, 102u8, 111u8, 110u8, 116u8];
    proof {
        assert(t4@ =~= seq![98u8, 97u8, 115u8, 101u8, 102u8, 111u8, 110u8, 116u8]);
    }
    if range_eq_ignore_case(b, a, z, t4.as_slice()) {
        return true;
    }
    let t5: [u8; 10] = [98u8, 108u8, 111u8, 99u8, 107u8, 113u8, 117u8, 111u8, 116u8, 101u8];
    proof {
        assert(t5@ =~= seq![98u8, 108u8, 111u8, 99u8, 107u8, 113u8, 117u8, 111u8, 116u8, 101u8]);
    }
    if range_eq_ignore_case(b, a, z, t5.as_slice()) {
        return true;
    }
    let t6: [u8; 4] = [98u8, 111u8, 100u8, 121u8];
    proof {
        assert(t6@ =~= seq![98u8, 111u8, 100u8, 121u8]);
    }
    if range_eq_ignore_case(b, a, z, t6.as_slice()) {
        return true;
    }
    let t7: [u8; 7] = [99u8, 97u8, 112u8, 116u8, 105u8, 111u8, 110u8];
    proof {
        assert(t7@ =~= seq![99u8, 97u8, 112u8, 116u8, 105u8, 111u8, 110u8]);
    }
    if range_eq_ignore_case(b, a, z, t7.as_slice()) {
        return true;
    }
    let t8: [u8; 6] = [99u8, 101u8, 110u8, 116u8, 101u8, 114u8];
    proof {
        assert(t8@ =~= seq![99u8, 101u8, 110u8, 116u8, 101u8, 114u8]);
    }
    if range_eq_ignore_case(b, a, z, t8.as_slice()) {
        return true;
    }
    let t9: [u8; 3] = [99u8, 111u8, 108u8];
    proof {
        assert(t9@ =~= seq![99u8, 111u8, 108u8]);
    }
    if range_eq_ignore_case(b, a, z, t9.as_slice()) {
        return true;
    }
    let t10: [u8; 8] = [99u8, 111u8, 108u8, 103u8, 114u8, 111u8, 117u8, 112u8];
    proof {
        assert(t10@ =~= seq![99u8, 111u8, 108u8, 103u8, 114u8, 111u8, 117u8, 112u8]);
    }
    if range_eq_ignore_case(b, a, z, t10.as_slice()) {
        return true;
    }
    let t11: [u8; 2] = [100u8, 100u8];
    proof {
        assert(t11@ =~= seq![100u8, 100u8]);
    }
    if range_eq_ignore_case(b, a, z, t11.as_slice()) {
        return true;
    }
    let t12: [u8; 7] = [100u8, 101u8, 116u8, 97u8, 105u8, 108u8, 115u8];
    proof {
        assert(t12@ =~= seq![100u8, 101u8, 116u8, 97u8, 105u8, 108u8, 115u8]);
    }
    if range_eq_ignore_case(b, a, z, t12.as_slice()) {
        return true;
    }
    let t13: [u8; 6] = [100u8, 105u8, 97u8, 108u8, 111u8, 103u8];
    proof {
        assert(t13@ =~= seq![100u8, 105u8, 97u8, 108u8, 111u8, 103u8]);
    }
    if range_eq_ignore_case(b, a, z, t13.as_slice()) {
        return true;
    }
    let t14: [u8; 3] = [100u8, 105u8, 114u8];
    proof {
        assert(t14@ =~= seq![100u8, 105u8, 114u8]);
    }
    if range_eq_ignore_case(b, a, z, t14.as_slice()) {
        return true;
    }
    let t15: [u8; 3] = [100u8, 105u8, 118u8];
    proof {
        assert(t15@ =~= seq![100u8, 105u8, 118u8]);
    }
    if range_eq_ignore_case(b, a, z, t15.as_slice()) {
        return true;
    }
    let t16: [u8; 2] = [100u8, 108u8];
    proof {
        assert(t16@ =~= seq![100u8, 108u8]);
    }
    if range_eq_ignore_case(b, a, z, t16.as_slice()) {
        return true;
    }
    let t17: [u8; 2] = [100u8, 116u8];
    proof {
        assert(t17@ =~= seq![100u8, 116u8]);
    }
    if range_eq_ignore_case(b, a, z, t17.as_slice()) {
        return true;
    }
    let t18: [u8; 8] = [102u8, 105u8, 101u8, 108u8, 100u8, 115u8, 101u8, 116u8];
    proof {
        assert(t18@ =~= seq![102u8, 105u8, 101u8, 108u8, 100u8, 115u8, 101u8, 116u8]);
    }
    if range_eq_ignore_case(b, a, z, t18.as_slice()) {
        return true;
    }
    let t19: [u8; 10] = [102u8, 105u8, 103u8, 99u8, 97u8, 112u8, 116u8, 105u8, 111u8, 110u8];
    proof {
        assert(t19@ =~= seq![102u8, 105u8, 103u8, 99u8, 97u8, 112u8, 116u8, 105u8, 111u8, 110u8]);
    }
    if range_eq_ignore_case(b, a, z, t19.as_slice()) {
        return true;
    }
    let t20: [u8; 6] = [102u8, 105u8, 103u8, 117u8, 114u8, 101u8];
    proof {
        assert(t20@ =~= seq![102u8, 105u8, 103u8, 117u8, 114u8, 101u8]);
    }
    if range_eq_ignore_case(b, a, z, t20.as_slice()) {
        return true;
    }
    let t21: [u8; 6] = [102u8, 111u8, 111u8, 116u8, 101u8, 114u8];
    proof {
        assert(t21@ =~= seq![102u8, 111u8, 111u8, 116u8, 101u8, 114u8]);
    }
    if range_eq_ignore_case(b, a, z, t21.as_slice()) {
        return true;
    }
    let t22: [u8; 4] = [102u8, 111u8, 114u8, 109u8];
    proof {
        assert(t22@ =~= seq![102u8, 111u8, 114u8, 109u8]);
    }
    if range_eq_ignore_case(b, a, z, t22.as_slice()) {
        return true;
    }
    let t23: [u8; 5] = [102u8, 114u8, 97u8, 109u8, 101u8];
    proof {
        assert(t23@ =~= seq![102u8, 114u8, 97u8, 109u8, 101u8]);
    }
    if range_eq_ignore_case(b, a, z, t23.as_slice()) {
        return true;
    }
    let t24: [u8; 8] = [102u8, 114u8, 97u8, 109u8, 101u8, 115u8, 101u8, 116u8];
    proof {
        assert(t24@ =~= seq![102u8, 114u8, 97u8, 109u8, 101u8, 115u8, 101u8, 116u8]);
    }
    if range_eq_ignore_case(b, a, z, t24.as_slice()) {
        return true;
    }
    let t25: [u8; 2] = [104u8, 49u8];
    proof {
        assert(t25@ =~= seq![104u8, 49u8]);
    }
    if range_eq_ignore_case(b, a, z, t25.as_slice()) {
        return true;
    }
    let t26: [u8; 2] = [104u8, 50u8];
    proof {
        assert(t26@ =~= seq![104u8, 50u8]);
    }
    if range_eq_ignore_case(b, a, z, t26.as_slice()) {
        return true;
    }
    let t27: [u8; 2] = [104u8, 51u8];
    proof {
        assert(t27@ =~= seq![104u8, 51u8]);
    }
    if range_eq_ignore_case(b, a, z, t27.as_slice()) {
        return true;
    }
    let t28: [u8; 2] = [104u8, 52u8];
    proof {
        assert(t28@ =~= seq![104u8, 52u8]);
    }
    if range_eq_ignore_case(b, a, z, t28.as_slice()) {
        return true;
    }
    let t29: [u8; 2] = [104u8, 53u8];
    proof {
        assert(t29@ =~= seq![104u8, 53u8]);
    }
    if range_eq_ignore_case(b, a, z, t29.as_slice()) {
        return true;
    }
    let t30: [u8; 2] = [104u8, 54u8];
    proof {
        assert(t30@ =~= seq![104u8, 54u8]);
    }
    if range_eq_ignore_case(b, a, z, t30.as_slice()) {
        return true;
    }
    let t31: [u8; 4] = [104u8, 101u8, 97u8, 100u8];
    proof {
        assert(t31@ =~= seq![104u8, 101u8, 97u8, 100u8]);
    }
    if range_eq_ignore_case(b, a, z, t31.as_slice()) {
        return true;
    }
    let t32: [u8; 6] = [104u8, 101u8, 97u8, 100u8, 101u8, 114u8];
    proof {
        assert(t32@ =~= seq![104u8, 101u8, 97u8, 100u8, 101u8, 114u8]);
    }
    if range_eq_ignore_case(b, a, z, t32.as_slice()) {
        return true;
    }
    let t33: [u8; 2] = [104u8, 114u8];
    proof {
        assert(t33@ =~= seq![104u8, 114u8]);
    }
    if range_eq_ignore_case(b, a, z, t33.as_slice()) {
        return true;
    }
    let t34: [u8; 4] = [104u8, 116u8, 109u8, 108u8];
    proof {
        assert(t34@ =~= seq![104u8, 116u8, 109u8, 108u8]);
    }
    if range_eq_ignore_case(b, a, z, t34.as_slice()) {
        return true;
    }
    let t35: [u8; 6] = [105u8, 102u8, 114u8, 97u8, 109u8, 101u8];
    proof {
        assert(t35@ =~= seq![105u8, 102u8, 114u8, 97u8, 109u8, 101u8]);
    }
    if range_eq_ignore_case(b, a, z, t35.as_slice()) {
        return true;
    }
    let t36: [u8; 6] = [108u8, 101u8, 103u8, 101u8, 110u8, 100u8];
    proof {
        assert(t36@ =~= seq![108u8, 101u8, 103u8, 101u8, 110u8, 100u8]);
    }
    if range_eq_ignore_case(b, a, z, t36.as_slice()) {
        return true;
    }
    let t37: [u8; 2] = [108u8, 105u8];
    proof {
        assert(t37@ =~= seq![108u8, 105u8]);
    }
    if range_eq_ignore_case(b, a, z, t37.as_slice()) {
        return true;
    }
    let t38: [u8; 4] = [108u8, 105u8, 110u8, 107u8];
    proof {
        assert(t38@ =~= seq![108u8, 105u8, 110u8, 107u8]);
    }
    if range_eq_ignore_case(b, a, z, t38.as_slice()) {
        return true;
    }
    let t39: [u8; 4] = [109u8, 97u8, 105u8, 110u8];
    proof {
        assert(t39@ =~= seq![109u8, 97u8, 105u8, 110u8]);
    }
    if range_eq_ignore_case(b, a, z, t39.as_slice()) {
        return true;
    }
    let t40: [u8; 4] = [109u8, 101u8, 110u8, 117u8];
    proof {
        assert(t40@ =~= seq![109u8, 101u8, 110u8, 117u8]);
    }
    if range_eq_ignore_case(b, a, z, t40.as_slice()) {
        return true;
    }
    let t41: [u8; 8] = [109u8, 101u8, 110u8, 117u8, 105u8, 116u8, 101u8, 109u8];
    proof {
        assert(t41@ =~= seq![109u8, 101u8, 110u8, 117u8, 105u8, 116u8, 101u8, 109u8]);
    }
    if range_eq_ignore_case(b, a, z, t41.as_slice()) {
        return true;
    }
    let t42: [u8; 3] = [110u8, 97u8, 118u8];
    proof {
        assert(t42@ =~= seq![110u8, 97u8, 118u8]);
    }
    if range_eq_ignore_case(b, a, z, t42.as_slice()) {
        return true;
    }
    let t43: [u8; 8] = [110u8, 111u8, 102u8, 114u8, 97u8, 109u8, 101u8, 115u8];
    proof {
        assert(t43@ =~= seq![110u8, 111u8, 102u8, 114u8, 97u8, 109u8, 101u8, 115u8]);
    }
    if range_eq_ignore_case(b, a, z, t43.as_slice()) {
        return true;
    }
    let t44: [u8; 2] = [111u8, 108u8];
    proof {
        assert(t44@ =~= seq![111u8, 108u8]);
    }
    if range_eq_ignore_case(b, a, z, t44.as_slice()) {
        return true;
    }
    let t45: [u8; 8] = [111u8, 112u8, 116u8, 103u8, 114u8, 111u8, 117u8, 112u8];
    proof {
        assert(t45@ =~= seq![111u8, 112u8, 116u8, 103u8, 114u8, 111u8, 117u8, 112u8]);
    }
    if range_eq_ignore_case(b, a, z, t45.as_slice()) {
        return true;
    }
    let t46: [u8; 6] = [111u8, 112u8, 116u8, 105u8, 111u8, 110u8];
    proof {
        assert(t46@ =~= seq![111u8, 112u8, 116u8, 105u8, 111u8, 110u8]);
    }
    if range_eq_ignore_case(b, a, z, t46.as_slice()) {
        return true;
    }
    let t47: [u8; 1] = [112u8];
    proof {
        assert(t47@ =~= seq![112u8]);
    }
    if range_eq_ignore_case(b, a, z, t47.as_slice()) {
        return true;
    }
    let t48: [u8; 5] = [112u8, 97u8, 114u8, 97u8, 109u8];
    proof {
        assert(t48@ =~= seq![112u8, 97u8, 114u8, 97u8, 109u8]);
    }
    if range_eq_ignore_case(b, a, z, t48.as_slice()) {
        return true;
    }
    let t49: [u8; 6] = [115u8, 101u8, 97u8, 114u8, 99u8, 104u8];
    proof {
        assert(t49@ =~= seq![115u8, 101u8, 97u8, 114u8, 99u8, 104u8]);
    }
    if range_eq_ignore_case(b, a, z, t49.as_slice()) {
        return true;
    }
    let t50: [u8; 7] = [115u8, 101u8, 99u8, 116u8, 105u8, 111u8, 110u8];
    proof {
        assert(t50@ =~= seq![115u8, 101u8, 99u8, 116u8, 105u8, 111u8, 110u8]);
    }
    if range_eq_ignore_case(b, a, z, t50.as_slice()) {
        return true;
    }
    let t51: [u8; 7] = [115u8, 117u8, 109u8, 109u8, 97u8, 114u8, 121u8];
    proof {
        assert(t51@ =~= seq![115u8, 117u8, 109u8, 109u8, 97u8, 114u8, 121u8]);
    }
    if range_eq_ignore_case(b, a, z, t51.as_slice()) {
        return true;
    }
    let t52: [u8; 5] = [116u8, 97u8, 98u8, 108u8, 101u8];
    proof {
        assert(t52@ =~= seq![116u8, 97u8, 98u8, 108u8, 101u8]);
    }
    if range_eq_ignore_case(b, a, z, t52.as_slice()) {
        return true;
    }
    let t53: [u8; 5] = [116u8, 98u8, 111u8, 100u8, 121u8];
    proof {
        assert(t53@ =~= seq![116u8, 98u8, 111u8, 100u8, 121u8]);
    }
    if range_eq_ignore_case(b, a, z, t53.as_slice()) {
        return true;
    }
    let t54: [u8; 2] = [116u8, 100u8];
    proof {
        assert(t54@ =~= seq![116u8, 100u8]);
    }
    if range_eq_ignore_case(b, a, z, t54.as_slice()) {
        return true;
    }
    let t55: [u8; 5] = [116u8, 102u8, 111u8, 111u8, 116u8];
    proof {
        assert(t55@ =~= seq![116u8, 102u8, 111u8, 111u8, 116u8]);
    }
    if range_eq_ignore_case(b, a, z, t55.as_slice()) {
        return true;
    }
    let t56: [u8; 2] = [116u8, 104u8];
    proof {
        assert(t56@ =~= seq![116u8, 104u8]);
    }
    if range_eq_ignore_case(b, a, z, t56.as_slice()) {
        return true;
    }
    let t57: [u8; 5] = [116u8, 104u8, 101u8, 97u8, 100u8];
    proof {
        assert(t57@ =~= seq![116u8, 104u8, 101u8, 97u8, 100u8]);
    }
    if range_eq_ignore_case(b, a, z, t57.as_slice()) {
        return true;
    }
    let t58: [u8; 5] = [116u8, 105u8, 116u8, 108u8, 101u8];
    proof {
        assert(t58@ =~= seq![116u8, 105u8, 116u8, 108u8, 101u8]);
    }
    if range_eq_ignore_case(b, a, z, t58.as_slice()) {
        return true;
    }
    let t59: [u8; 2] = [116u8, 114u8];
    proof {
        assert(t59@ =~= seq![116u8, 114u8]);
    }
    if range_eq_ignore_case(b, a, z, t59.as_slice()) {
        return true;
    }
    let t60: [u8; 5] = [116u8, 114u8, 97u8, 99u8, 107u8];
    proof {
        assert(t60@ =~= seq![116u8, 114u8, 97u8, 99u8, 107u8]);
    }
    if range_eq_ignore_case(b, a, z, t60.as_slice()) {
        return true;
    }
    let t61: [u8; 2] = [117u8, 108u8];
    proof {
        assert(t61@ =~= seq![117u8, 108u8]);
    }
    if range_eq_ignore_case(b, a, z, t61.as_slice()) {
        return true;
    }
    false
}

/// `s[p..]` starts with `lit` in any case.
pub open spec fn starts_ci_at(s: Seq<u8>, p: int, lit: Seq<u8>) -> bool {
    p + lit.len() <= s.len() && ci_is(s, p, p + lit.len(), lit)
}

/// `b[p..]` starts with `lit` in any case.
fn starts_ci(b: &[u8], p: usize, lit: &[u8]) -> (r: bool)
    requires
        p <= b@.len(),
    ensures
        r == starts_ci_at(b@, p as int, lit@),
{
    let n = b.len();
    let m = lit.len();
    if m > n - p {
        return false;
    }
    range_eq_ignore_case(b, p, p + m, lit)
}

/// One of the raw-text tags `<pre`, `<script`, `<style`, `<textarea` (any
/// case) at `p`, ending its name.
pub open spec fn raw_open(s: Seq<u8>, p: int) -> bool {
    ||| starts_ci_at(s, p, seq![60u8, 112u8, 114u8, 101u8]) && name_end_ok(s, p + 4)
    ||| starts_ci_at(s, p, seq![60u8, 115u8, 99u8, 114u8, 105u8, 112u8, 116u8]) && name_end_ok(
        s,
        p + 7,
    )
    ||| starts_ci_at(s, p, seq![60u8, 115u8, 116u8, 121u8, 108u8, 101u8]) && name_end_ok(s, p + 6)
    ||| starts_ci_at(s, p, seq![60u8, 116u8, 101u8, 120u8, 116u8, 97u8, 114u8, 101u8, 97u8])
        && name_end_ok(s, p + 9)
}

/// Whether a raw-text tag opens at `p`.
fn raw_text_open(b: &[u8], p: usize) -> (r: bool)
    requires
        p <= b@.len(),
    ensures
        r == raw_open(b@, p as int),
{
    let pre: [u8; 4] = [60u8, 112u8, 114u8, 101u8];
    let script: [u8; 7] = [60u8, 115u8, 99u8, 114u8, 105u8, 112u8, 116u8];
    let style: [u8; 6] = [60u8, 115u8, 116u8, 121u8, 108u8, 101u8];
    let textarea: [u8; 9] = [60u8, 116u8, 101u8, 120u8, 116u8, 97u8, 114u8, 101u8, 97u8];
    proof {
        assert(pre@ =~= seq![60u8, 112u8, 114u8, 101u8]);
        assert(script@ =~= seq![60u8, 115u8, 99u8, 114u8, 105u8, 112u8, 116u8]);
        assert(style@ =~= seq![60u8, 115u8, 116u8, 121u8, 108u8, 101u8]);
        assert(textarea@ =~= seq![60u8, 116u8, 101u8, 120u8, 116u8, 97u8, 114u8, 101u8, 97u8]);
    }
    let n = b.len();
    (n - p >= 4 && starts_ci(b, p, pre.as_slice()) && tag_name_end_ok(b, p + 4)) || (n - p >= 7
        && starts_ci(b, p, script.as_slice()) && tag_name_end_ok(b, p + 7)) || (n - p >= 6
        && starts_ci(b, p, style.as_slice()) && tag_name_end_ok(b, p + 6)) || (n - p >= 9
        && starts_ci(b, p, textarea.as_slice()) && tag_name_end_ok(b, p + 9))
}

/// `s[a..z]` names a raw-text tag (`pre`, `script`, `style`, `textarea`,
/// any case).
pub open spec fn raw_tag_name(s: Seq<u8>, a: int, z: int) -> bool {
    ||| ci_is(s, a, z, seq![112u8, 114u8, 101u8])
    ||| ci_is(s, a, z, seq![115u8, 99u8, 114u8, 105u8, 112u8, 116u8])
    ||| ci_is(s, a, z, seq![115u8, 116u8, 121u8, 108u8, 101u8])
    ||| ci_is(s, a, z, seq![116u8, 101u8, 120u8, 116u8, 97u8, 114u8, 101u8, 97u8])
}

/// Whether `b[a..z]` names a raw-text tag.
fn is_raw_tag_name(b: &[u8], a: usize, z: usize) -> (r: bool)
    requires
        a <= z <= b@.len(),
    ensures
        r == raw_tag_name(b@, a as int, z as int),
{
    let pre: [u8; 3] = [112u8, 114u8, 101u8];
    let script: [u8; 6] = [115u8, 99u8, 114u8, 105u8, 112u8, 116u8];
    let style: [u8; 5] = [115u8, 116u8, 121u8, 108u8, 101u8];
    let textarea: [u8; 8] = [116u8, 101u8, 120u8, 116u8, 97u8, 114u8, 101u8, 97u8];
    proof {
        assert(pre@ =~= seq![112u8, 114u8, 101u8]);
        assert(script@ =~= seq![115u8, 99u8, 114u8, 105u8, 112u8, 116u8]);
        assert(style@ =~= seq![115u8, 116u8, 121u8, 108u8, 101u8]);
        assert(textarea@ =~= seq![116u8, 101u8, 120u8, 116u8, 97u8, 114u8, 101u8, 97u8]);
    }
    range_eq_ignore_case(b, a, z, pre.as_slice()) || range_eq_ignore_case(b, a, z, script.as_slice())
        || range_eq_ignore_case(b, a, z, style.as_slice()) || range_eq_ignore_case(
        b,
        a,
        z,
        textarea.as_slice(),
    )
}

/// End of the run of `c`-class bytes from `i`: tag-name bytes (letters,
/// digits, `-`) for `cls == 0`, attribute-name bytes (also `_`, `.`, `:`)
/// for `cls == 1`, spaces and tabs for `cls == 2`, unquoted attribute-value
/// bytes for `cls == 3`.
pub open spec fn class_end(s: Seq<u8>, i: int, cls: int) -> int
    decreases s.len() - i,
{
    if i < 0 || i >= s.len() || !in_class(s[i], cls) {
        i
    } else {
        class_end(s, i + 1, cls)
    }
}

/// Byte `c` belongs to class `cls` (see `class_end`).
pub open spec fn in_class(c: u8, cls: int) -> bool {
    if cls == 0 {
        crate::text::is_alnum(c) || c == 45u8
    } else if cls == 1 {
        crate::text::is_alnum(c) || c == 95u8 || c == 46u8 || c == 58u8 || c == 45u8
    } else if cls == 2 {
        c == 32u8 || c == 9u8
    } else {
        !(c == 32u8 || c == 9u8 || c == 13u8 || c == 10u8 || c == 39u8 || c == 34u8 || c == 61u8
            || c == 60u8 || c == 62u8 || c == 96u8)
    }
}

/// A run ends at or after where it starts.
pub proof fn lemma_class_end_ge(s: Seq<u8>, i: int, cls: int)
    ensures
        class_end(s, i, cls) >= i,
        i <= s.len() ==> class_end(s, i, cls) <= s.len(),
    decreases s.len() - i,
{
    if 0 <= i < s.len() && in_class(s[i], cls) {
        lemma_class_end_ge(s, i + 1, cls);
    }
}

/// Only spaces and tabs from `i` on.
pub open spec fn blank_from(s: Seq<u8>, i: int) -> bool {
    forall|j: int| i <= j < s.len() ==> #[trigger] in_class(s[j], 2)
}

/// The attributes of a tag from `i` to its end: each preceded by blanks, a
/// name, optionally `=` and a quoted or unquoted value; then `>` (or `/>`
/// for an open tag) and only blanks after it. A closing tag has no
/// attributes.
pub open spec fn tag_rest(s: Seq<u8>, closing: bool, i: int) -> bool
    decreases s.len() - i,
{
    let n = s.len() as int;
    let j = class_end(s, i, 2);
    if i < 0 || i > n {
        false
    } else if !closing && j < n && s[j] == 47u8 {
        j + 1 < n && s[j + 1] == 62u8 && blank_from(s, j + 2)
    } else if j < n && s[j] == 62u8 {
        blank_from(s, j + 1)
    } else if closing || j == i || !(j < n && (crate::text::is_alpha(s[j]) || s[j] == 95u8 || s[j]
        == 58u8)) {
        false
    } else {
        let an = class_end(s, j + 1, 1);
        let k = class_end(s, an, 2);
        proof {
            lemma_class_end_ge(s, i, 2);
            lemma_class_end_ge(s, j + 1, 1);
            lemma_class_end_ge(s, an, 2);
            lemma_class_end_ge(s, k + 1, 2);
        }
        if !(k < n && s[k] == 61u8) {
            tag_rest(s, closing, an)
        } else {
            let v = class_end(s, k + 1, 2);
            if v < n && (s[v] == 39u8 || s[v] == 34u8) {
                let c = crate::text::find_byte_pos(s, v + 1, n, s[v]);
                if c >= n || c < v + 1 {
                    false
                } else {
                    tag_rest(s, closing, c + 1)
                }
            } else {
                let u = class_end(s, v, 3);
                proof {
                    lemma_class_end_ge(s, v, 3);
                }
                if u == v {
                    false
                } else {
                    tag_rest(s, closing, u)
                }
            }
        }
    }
}

/// The text from `t` is one complete open tag (with attributes) or closing
/// tag, followed only by spaces and tabs.
pub open spec fn complete_tag_at(s: Seq<u8>, t: int) -> bool {
    let n = s.len() as int;
    let closing = n - t > 1 && s[t + 1] == 47u8;
    let i0 = if closing {
        t + 2
    } else {
        t + 1
    };
    0 <= t < n && i0 < n && crate::text::is_alpha(s[i0]) && tag_rest(
        s,
        closing,
        class_end(s, i0 + 1, 0),
    )
}

/// How the HTML block a line starts ends, and whether it may interrupt a
/// paragraph (see `block_start`).
pub open spec fn html_block_start(s: Seq<u8>) -> Option<HtmlStart> {
    let n = s.len() as int;
    let t = crate::lines::run_end(s, 0, n, 32u8);
    if t > 3 || t >= n || s[t] != 60u8 {
        None
    } else if raw_open(s, t) {
        Some(HtmlStart { end: HtmlEnd::RawText, interrupts_paragraph: true })
    } else if starts_with_at(s, t, n, seq![60u8, 33u8, 45u8, 45u8]) {
        Some(HtmlStart { end: HtmlEnd::Delimiter("-->"), interrupts_paragraph: true })
    } else if starts_with_at(s, t, n, seq![60u8, 63u8]) {
        Some(HtmlStart { end: HtmlEnd::Delimiter("?>"), interrupts_paragraph: true })
    } else if starts_with_at(s, t, n, seq![60u8, 33u8, 91u8, 67u8, 68u8, 65u8, 84u8, 65u8, 91u8]) {
        Some(HtmlStart { end: HtmlEnd::Delimiter("]]>"), interrupts_paragraph: true })
    } else if n - t > 2 && s[t + 1] == 33u8 && crate::text::is_alpha(s[t + 2]) {
        Some(HtmlStart { end: HtmlEnd::Delimiter(">"), interrupts_paragraph: true })
    } else {
        let st = if n - t > 1 && s[t + 1] == 47u8 {
            2int
        } else {
            1int
        };
        let i = class_end(s, t + st, 0);
        let self_close = n - i >= 2 && s[i] == 47u8 && s[i + 1] == 62u8;
        if block_tag(s, t + st, i) && (name_end_ok(s, i) || self_close) {
            Some(HtmlStart { end: HtmlEnd::Blank, interrupts_paragraph: true })
        } else if st == 1 && raw_tag_name(s, t + st, i) {
            None
        } else if !complete_tag_at(s, t) {
            None
        } else {
            Some(HtmlStart { end: HtmlEnd::Blank, interrupts_paragraph: false })
        }
    }
}

/// Whether the line starts an HTML block, and how that block ends: at most
/// three spaces, then `<` opening a raw-text tag, a comment, a processing
/// instruction, CDATA, a declaration, a block-level tag, or (not able to
/// interrupt a paragraph) any other complete open or closing tag alone on
/// the line.
pub fn block_start(line: &str) -> (r: Option<HtmlStart>)
    ensures
        r == html_block_start(line.spec_bytes()),
{
    let whole = line.as_bytes();
    let n = whole.len();
    let a = crate::lines::scan_run(whole, 0, n, 32u8);
    if a > 3 || a >= n || whole[a] != 60u8 {
        return None;
    }
    // The text after the indentation.
    let b = whole;
    let t = a;
    let lt_bang_dash: [u8; 4] = [60u8, 33u8, 45u8, 45u8];
    let lt_q: [u8; 2] = [60u8, 63u8];
    let cdata: [u8; 9] = [60u8, 33u8, 91u8, 67u8, 68u8, 65u8, 84u8, 65u8, 91u8];
    proof {
        assert(lt_bang_dash@ =~= seq![60u8, 33u8, 45u8, 45u8]);
        assert(lt_q@ =~= seq![60u8, 63u8]);
        assert(cdata@ =~= seq![60u8, 33u8, 91u8, 67u8, 68u8, 65u8, 84u8, 65u8, 91u8]);
    }
    let end = if raw_text_open(b, t) {
        HtmlEnd::RawText
    } else if has_prefix(b, t, n, lt_bang_dash.as_slice()) {
        HtmlEnd::Delimiter("-->")
    } else if has_prefix(b, t, n, lt_q.as_slice()) {
        HtmlEnd::Delimiter("?>")
    } else if has_prefix(b, t, n, cdata.as_slice()) {
        HtmlEnd::Delimiter("]]>")
    } else if n - t > 2 && b[t + 1] == 33u8 && alpha(b[t + 2]) {
        HtmlEnd::Delimiter(">")
    } else {
        let start: usize = if n - t > 1 && b[t + 1] == 47u8 {
            2
        } else {
            1
        };
        let i = class_run(b, t + start, 0);
        let self_close = n - i >= 2 && b[i] == 47u8 && b[i + 1] == 62u8;
        if is_block_tag(b, t + start, i) && (tag_name_end_ok(b, i) || self_close) {
            HtmlEnd::Blank
        } else {
            if start == 1 && is_raw_tag_name(b, t + start, i) {
                return None;
            }
            if !complete_tag(b, t) {
                return None;
            }
            return Some(HtmlStart { end: HtmlEnd::Blank, interrupts_paragraph: false });
        }
    };
    Some(HtmlStart { end, interrupts_paragraph: true })
}

/// Whether byte `c` is in class `cls` (see `class_end`).
fn byte_in_class(c: u8, cls: u8) -> (r: bool)
    ensures
        r == in_class(c, cls as int),
{
    if cls == 0 {
        alnum(c) || c == 45u8
    } else if cls == 1 {
        alnum(c) || c == 95u8 || c == 46u8 || c == 58u8 || c == 45u8
    } else if cls == 2 {
        c == 32u8 || c == 9u8
    } else {
        !(c == 32u8 || c == 9u8 || c == 13u8 || c == 10u8 || c == 39u8 || c == 34u8 || c == 61u8
            || c == 60u8 || c == 62u8 || c == 96u8)
    }
}

/// End of the run of class-`cls` bytes from `i`.
fn class_run(b: &[u8], i: usize, cls: u8) -> (e: usize)
    requires
        i <= b@.len(),
    ensures
        e == class_end(b@, i as int, cls as int),
        i <= e <= b@.len(),
{
    let mut e = i;
    while e < b.len() && byte_in_class(b[e], cls)
        invariant
            i <= e <= b@.len(),
            class_end(b@, e as int, cls as int) == class_end(b@, i as int, cls as int),
        decreases b@.len() - e,
    {
        e = e + 1;
    }
    e
}

/// Only spaces and tabs from `i` on.
fn rest_blank(b: &[u8], i: usize) -> (r: bool)
    ensures
        r == blank_from(b@, i as int),
{
    let mut k = i;
    while k < b.len()
        invariant
            i <= k,
            forall|j: int| i <= j < k ==> #[trigger] in_class(b@[j], 2),
        decreases b@.len() - k,
    {
        if !(b[k] == 32u8 || b[k] == 9u8) {
            proof {
                assert(!in_class(b@[k as int], 2));
            }
            return false;
        }
        k = k + 1;
    }
    true
}

/// The text from `t` is one complete open tag (with attributes) or closing
/// tag, followed only by spaces and tabs.
fn complete_tag(b: &[u8], t: usize) -> (r: bool)
    requires
        t <= b@.len(),
    ensures
        r == complete_tag_at(b@, t as int),
{
    let n = b.len();
    if t >= n {
        return false;
    }
    let closing = n - t > 1 && b[t + 1] == 47u8;
    let i0 = if closing {
        t + 2
    } else {
        t + 1
    };
    if !(i0 < n && alpha(b[i0])) {
        return false;
    }
    let mut i = class_run(b, i0 + 1, 0);
    loop
        invariant
            t < i <= n == b@.len(),
            tag_rest(b@, closing, i as int) == complete_tag_at(b@, t as int),
        decreases n - i,
    {
        let before_space = i;
        let j = class_run(b, i, 2);
        if !closing && j < n && b[j] == 47u8 {
            return j + 1 < n && b[j + 1] == 62u8 && rest_blank(b, j + 2);
        }
        if j < n && b[j] == 62u8 {
            return rest_blank(b, j + 1);
        }
        if closing || j == before_space || !(j < n && (alpha(b[j]) || b[j] == 95u8 || b[j]
            == 58u8)) {
            return false;
        }
        let an = class_run(b, j + 1, 1);
        let k = class_run(b, an, 2);
        if !(k < n && b[k] == 61u8) {
            i = an;
            continue;
        }
        let v = class_run(b, k + 1, 2);
        if v < n && (b[v] == 39u8 || b[v] == 34u8) {
            let quote = b[v];
            let c = crate::text::find_byte(b, v + 1, n, quote);
            if c >= n {
                return false;
            }
            i = c + 1;
        } else {
            let u = class_run(b, v, 3);
            if u == v {
                return false;
            }
            i = u;
        }
    }
}

} // verus!
