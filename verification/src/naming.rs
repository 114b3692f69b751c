//! Building the platform bundle identifier: dash out spaces in the
//! organization and application names, drop empty parts, join with dots.

use crate::trusted::push_char;
use vstd::prelude::*;
use vstd::string::StrSliceExecFns;
use vstd::string::StringExecFns;

verus! {

/// The name with every space turned into a dash.
pub open spec fn dashed(s: Seq<char>) -> Seq<char> {
    Seq::new(
        s.len(),
        |i: int|
            if s[i] == ' ' {
                '-'
            } else {
                s[i]
            },
    )
}

/// The parts joined with single dots between them.
pub open spec fn joined(parts: Seq<Seq<char>>) -> Seq<char>
    decreases parts.len(),
{
    if parts.len() == 0 {
        Seq::empty()
    } else if parts.len() == 1 {
        parts[0]
    } else {
        joined(parts.drop_last()) + seq!['.'] + parts.last()
    }
}

/// The non-empty parts of the identifier, in order: the qualifier as
/// given, then the dashed organization, then the dashed application.
pub open spec fn bundle_parts(q: Seq<char>, o: Seq<char>, a: Seq<char>) -> Seq<Seq<char>> {
    (if q.len() > 0 {
        seq![q]
    } else {
        Seq::empty()
    }) + (if dashed(o).len() > 0 {
        seq![dashed(o)]
    } else {
        Seq::empty()
    }) + (if dashed(a).len() > 0 {
        seq![dashed(a)]
    } else {
        Seq::empty()
    })
}

/// The bundle identifier the three names denote.
pub open spec fn bundle_id_spec(q: Seq<char>, o: Seq<char>, a: Seq<char>) -> Seq<char> {
    joined(bundle_parts(q, o, a))
}

/// The name with spaces dashed out, computed executably.
fn dash_string(s: &str) -> (r: String)
    ensures
        r@ == dashed(s@),
{
    let n = s.unicode_len();
    let mut r = String::new();
    let mut i: usize = 0;
    while i < n
        invariant
            n == s@.len(),
            i <= n,
            r@ == dashed(s@).take(i as int),
        decreases n - i,
    {
        let c = s.get_char(i);
        if c == ' ' {
            push_char(&mut r, '-');
        } else {
            push_char(&mut r, c);
        }
        i += 1;
        proof {
            assert(r@ =~= dashed(s@).take(i as int));
        }
    }
    proof {
        assert(dashed(s@).take(n as int) =~= dashed(s@));
    }
    r
}

/// Build the platform bundle identifier: spaces in the organization and
/// application become dashes, empty parts are dropped, and what remains
/// is joined with dots.
pub fn bundle_id(qualifier: &str, organization: &str, application: &str) -> (r: String)
    ensures
        r@ == bundle_id_spec(qualifier@, organization@, application@),
{
    let od = dash_string(organization);
    let ad = dash_string(application);
    let mut parts: Vec<String> = Vec::new();
    if !qualifier.is_empty() {
        parts.push(qualifier.to_owned());
    }
    if !od.as_str().is_empty() {
        parts.push(od);
    }
    if !ad.as_str().is_empty() {
        parts.push(ad);
    }
    let ghost pv = bundle_parts(qualifier@, organization@, application@);
    proof {
        assert(Seq::new(parts@.len(), |i: int| parts@[i]@) =~= pv);
    }
    let mut out = String::new();
    let n = parts.len();
    let mut i: usize = 0;
    while i < n
        invariant
            n == parts@.len(),
            pv == Seq::new(parts@.len(), |l: int| parts@[l]@),
            i <= n,
            out@ == joined(pv.take(i as int)),
        decreases n - i,
    {
        if i > 0 {
            push_char(&mut out, '.');
        }
        out.append(parts[i].as_str());
        i += 1;
        proof {
            assert(pv.take(i as int).drop_last() =~= pv.take(i - 1));
            if i == 1 {
                assert(out@ =~= joined(pv.take(1)));
            } else {
                assert(out@ =~= joined(pv.take(i - 1)) + seq!['.'] + pv[i - 1]);
            }
        }
    }
    proof {
        assert(pv.take(n as int) =~= pv);
    }
    out
}

} // verus!
