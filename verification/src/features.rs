use vstd::prelude::*;

use crate::text::{dec_int, lemma_dec_int_injective, push_i64};

verus! {

/// Human duration: whole hours as `Nh`, otherwise whole minutes as `Nm` from one minute
/// up, otherwise seconds as `Ns`.
pub open spec fn duration_text(seconds: int) -> Seq<char> {
    if seconds >= 3600 && seconds % 3600 == 0 {
        dec_int(seconds / 3600) + "h"@
    } else if seconds >= 60 {
        dec_int(seconds / 60) + "m"@
    } else {
        dec_int(seconds) + "s"@
    }
}

/// A rendered duration is a number and a unit: `h` exactly when the duration is a positive whole
/// number of hours, the number of hours then being exact; `m` for a duration of at least a
/// minute, the number being the whole minutes it holds; `s` otherwise, the number being the
/// seconds themselves.
pub proof fn lemma_duration_text_law(seconds: int)
    ensures
        exists|n: int| #![trigger dec_int(n)] duration_text(seconds) == dec_int(n) + "h"@
            || duration_text(seconds) == dec_int(n) + "m"@ || duration_text(seconds) == dec_int(n) + "s"@,
        (duration_text(seconds).last() == 'h') <==> (seconds >= 3600 && seconds % 3600 == 0),
        forall|n: int| #[trigger] dec_int(n) + "h"@ == duration_text(seconds) ==> n * 3600 == seconds,
        forall|n: int| #[trigger] dec_int(n) + "m"@ == duration_text(seconds) ==> n * 60 <= seconds < n * 60 + 60 && seconds >= 60,
        forall|n: int| #[trigger] dec_int(n) + "s"@ == duration_text(seconds) ==> n == seconds,
{
    reveal_strlit("h");
    reveal_strlit("m");
    reveal_strlit("s");
    let t = duration_text(seconds);
    let q: int = if seconds >= 3600 && seconds % 3600 == 0 { seconds / 3600 } else if seconds >= 60 { seconds / 60 } else { seconds };
    let unit: char = if seconds >= 3600 && seconds % 3600 == 0 { 'h' } else if seconds >= 60 { 'm' } else { 's' };
    lemma_dec_int_injective(q, q);
    assert(t == dec_int(q) + seq![unit]);
    assert(t.last() == unit);
    assert(t.drop_last() =~= dec_int(q));
    assert forall|n: int| #[trigger] dec_int(n) + "h"@ == t implies n * 3600 == seconds by {
        assert((dec_int(n) + "h"@).last() == 'h');
        assert((dec_int(n) + "h"@).drop_last() =~= dec_int(n));
        lemma_dec_int_injective(n, q);
    }
    assert forall|n: int| #[trigger] dec_int(n) + "m"@ == t implies n * 60 <= seconds < n * 60 + 60 && seconds >= 60 by {
        assert((dec_int(n) + "m"@).last() == 'm');
        assert((dec_int(n) + "m"@).drop_last() =~= dec_int(n));
        lemma_dec_int_injective(n, q);
    }
    assert forall|n: int| #[trigger] dec_int(n) + "s"@ == t implies n == seconds by {
        assert((dec_int(n) + "s"@).last() == 's');
        assert((dec_int(n) + "s"@).drop_last() =~= dec_int(n));
        lemma_dec_int_injective(n, q);
    }
    if unit == 'h' {
        assert(t == dec_int(q) + "h"@);
    } else if unit == 'm' {
        assert(t == dec_int(q) + "m"@);
    } else {
        assert(t == dec_int(q) + "s"@);
    }
}

/// Renders a duration in seconds as hours, minutes or seconds.
pub fn format_duration(seconds: i64) -> (r: String)
    ensures
        r@ == duration_text(seconds as int),
{
    let mut out = String::new();
    if seconds >= 3600 && seconds % 3600 == 0 {
        push_i64(&mut out, seconds / 3600);
        out.append("h");
    } else if seconds >= 60 {
        push_i64(&mut out, seconds / 60);
        out.append("m");
    } else {
        push_i64(&mut out, seconds);
        out.append("s");
    }
    out
}

} // verus!
