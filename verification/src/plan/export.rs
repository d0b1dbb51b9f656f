//! Writing search plans out: what goes into each file, and the page that lists
//! them.

use vstd::prelude::*;

use crate::api;
use crate::api::safe_name;
use crate::plan::route::GpxOptions;
use crate::text;
use crate::text::{chars_of, copy, push_dec, push_str};

verus! {

/// What was asked for of the files, where anything was.
pub struct Wishes {
    pub track: Option<bool>,
    pub routes: Option<bool>,
    pub route_per_line: Option<bool>,
    pub turn_points: Option<bool>,
    pub targets: Option<bool>,
    pub line_waypoints: Option<bool>,
}

/// What was asked for, or else what is usual.
pub open spec fn wish(w: Option<bool>, usual: bool) -> bool {
    match w {
        Some(b) => b,
        None => usual,
    }
}

fn wished(w: Option<bool>, usual: bool) -> (r: bool)
    ensures
        r == wish(w, usual),
{
    match w {
        Some(b) => b,
        None => usual,
    }
}

/// Choose what goes into a file. The trace is what is usual: a plotter that
/// takes only one is better served by the shape to follow than by legs it will
/// not be steered along.
pub fn export_options(w: &Wishes) -> (o: GpxOptions)
    ensures
        o.track == wish(w.track, true),
        o.routes == wish(w.routes, false),
        o.route_per_line == wish(w.route_per_line, false),
        o.turn_points == wish(w.turn_points, false),
        o.targets == wish(w.targets, true),
        o.line_waypoints == wish(w.line_waypoints, false),
        o.name@ == Seq::<char>::empty(),
{
    let name = String::new();
    proof {
        assert(name@ =~= Seq::empty());
    }
    GpxOptions {
        track: wished(w.track, true),
        routes: wished(w.routes, false),
        route_per_line: wished(w.route_per_line, false),
        turn_points: wished(w.turn_points, false),
        targets: wished(w.targets, true),
        line_waypoints: wished(w.line_waypoints, false),
        name,
    }
}

/// The file a plan is written to.
pub fn export_file(name: &str) -> (s: String)
    ensures
        s@ == api::safe(name@) + ".gpx"@,
{
    let mut s = safe_name(name);
    push_str(&mut s, ".gpx");
    s
}

/// A target as the page lists it.
pub struct Listed {
    pub name: String,
    pub lat: String,
    pub lon: String,
    pub radius: String,
}

/// A plan as the page lists it.
pub struct Written {
    pub file: String,
    pub digest: String,
    /// How much of the area is not seen, and how much is seen twice, in percent.
    pub unseen: String,
    pub twice: String,
}

/// A text filled with spaces on the right to at least a width.
pub open spec fn filled(s: Seq<char>, width: nat) -> Seq<char> {
    if s.len() >= width {
        s
    } else {
        s + Seq::new((width - s.len()) as nat, |i: int| ' ')
    }
}

fn fill(s: &str, width: usize) -> (r: String)
    ensures
        r@ == filled(s@, width as nat),
{
    let n = chars_of(s).len();
    let mut r = copy(s);
    let mut i: usize = n;
    while i < width
        invariant
            n == s@.len(),
            n <= i,
            i <= width || i == n,
            r@ == s@ + Seq::new((i - n) as nat, |i: int| ' '),
        decreases width - i,
    {
        r.push(' ');
        i += 1;
        proof {
            assert(r@ =~= s@ + Seq::new((i - n) as nat, |i: int| ' '));
        }
    }
    proof {
        if n >= width {
            assert(r@ =~= s@);
        }
    }
    r
}

/// A target's line.
pub open spec fn target_line(t: Listed) -> Seq<char> {
    "  "@ + filled(t.name@, 12) + " "@ + t.lat@ + ", "@ + t.lon@ + "  +/- "@ + t.radius@ + " m\n"@
}

/// The targets' lines.
pub open spec fn target_lines(t: Seq<Listed>) -> Seq<char>
    decreases t.len(),
{
    if t.len() == 0 {
        Seq::empty()
    } else {
        target_lines(t.drop_last()) + target_line(t.last())
    }
}

/// A plan's lines.
pub open spec fn plan_entry(p: Written) -> Seq<char> {
    p.file@ + "\n  "@ + p.digest@ + "\n  coverage: "@ + p.unseen@ + "% unseen, "@ + p.twice@
        + "% seen twice or more\n\n"@
}

/// The plans' lines.
pub open spec fn plan_entries(p: Seq<Written>) -> Seq<char>
    decreases p.len(),
{
    if p.len() == 0 {
        Seq::empty()
    } else {
        plan_entries(p.drop_last()) + plan_entry(p.last())
    }
}

/// The page that lists the plans.
pub open spec fn index_of(t: Seq<Listed>, p: Seq<Written>) -> Seq<char> {
    "SEARCH PLAN\n===========\n\nTargets ("@ + text::dec(t.len()) + "):\n"@ + target_lines(t)
        + "\n"@ + plan_entries(p)
        + "Waypoints are GPS ANTENNA positions; the fish is astern by the layback above.\nRecording starts at the A point of each line, not the S.\n"@
}

/// Write the page that lists the plans.
pub fn index_page(t: &Vec<Listed>, p: &Vec<Written>) -> (h: String)
    ensures
        h@ == index_of(t@, p@),
{
    let mut targets = String::new();
    let mut i: usize = 0;
    proof {
        assert(targets@ =~= Seq::empty());
    }
    while i < t.len()
        invariant
            i <= t@.len(),
            targets@ == target_lines(t@.take(i as int)),
        decreases t.len() - i,
    {
        let mut one = copy("  ");
        push_str(&mut one, fill(t[i].name.as_str(), 12).as_str());
        push_str(&mut one, " ");
        push_str(&mut one, t[i].lat.as_str());
        push_str(&mut one, ", ");
        push_str(&mut one, t[i].lon.as_str());
        push_str(&mut one, "  +/- ");
        push_str(&mut one, t[i].radius.as_str());
        push_str(&mut one, " m\n");
        push_str(&mut targets, one.as_str());
        i += 1;
        proof {
            assert(t@.take(i as int).drop_last() =~= t@.take(i - 1));
        }
    }
    let mut plans = String::new();
    let mut j: usize = 0;
    proof {
        assert(t@.take(i as int) =~= t@);
        assert(plans@ =~= Seq::empty());
    }
    while j < p.len()
        invariant
            j <= p@.len(),
            plans@ == plan_entries(p@.take(j as int)),
        decreases p.len() - j,
    {
        let mut one = copy(p[j].file.as_str());
        push_str(&mut one, "\n  ");
        push_str(&mut one, p[j].digest.as_str());
        push_str(&mut one, "\n  coverage: ");
        push_str(&mut one, p[j].unseen.as_str());
        push_str(&mut one, "% unseen, ");
        push_str(&mut one, p[j].twice.as_str());
        push_str(&mut one, "% seen twice or more\n\n");
        push_str(&mut plans, one.as_str());
        j += 1;
        proof {
            assert(p@.take(j as int).drop_last() =~= p@.take(j - 1));
        }
    }
    proof {
        assert(p@.take(j as int) =~= p@);
    }
    let mut h = copy("SEARCH PLAN\n===========\n\nTargets (");
    push_dec(&mut h, t.len() as u64);
    push_str(&mut h, "):\n");
    push_str(&mut h, targets.as_str());
    push_str(&mut h, "\n");
    push_str(&mut h, plans.as_str());
    push_str(
        &mut h,
        "Waypoints are GPS ANTENNA positions; the fish is astern by the layback above.\nRecording starts at the A point of each line, not the S.\n",
    );
    h
}

/// Text that is filled up is the text with blanks behind it, and is as wide as is
/// asked for or as it was.
pub proof fn law_filled(s: Seq<char>, width: nat)
    ensures
        filled(s, width).len() == (if s.len() < width {
            width
        } else {
            s.len()
        }),
        s.is_prefix_of(filled(s, width)),
        forall|i: int| s.len() <= i < filled(s, width).len() ==> #[trigger] filled(s, width)[i] == ' ',
{
    assert(filled(s, width).subrange(0, s.len() as int) =~= s);
}

/// A target's line has its name at its front, and its latitude before its longitude.
pub proof fn law_target_line(t: Listed)
    ensures
        text::occurs(target_line(t), t.lat@ + ", "@ + t.lon@),
        text::occurs(target_line(t), "+/- "@ + t.radius@ + " m\n"@),
        text::occurs(target_line(t), t.name@),
{
    let s = target_line(t);
    let a = "  "@;
    let n = filled(t.name@, 12);
    let p = t.lat@ + ", "@ + t.lon@;
    let e = "+/- "@ + t.radius@ + " m\n"@;
    reveal_strlit("  +/- ");
    reveal_strlit("+/- ");
    reveal_strlit("  ");
    assert("  +/- "@ =~= a + "+/- "@);
    law_filled(t.name@, 12);
    assert(s =~= a + n + " "@ + p + a + e);
    let k = (a + n + " "@).len() as int;
    assert(s.subrange(k, k + p.len()) =~= p);
    let m = (a + n + " "@ + p + a).len() as int;
    assert(s.subrange(m, m + e.len()) =~= e);
    let l = a.len() as int;
    assert(n.subrange(0, t.name@.len() as int) =~= t.name@);
    assert(s.subrange(l, l + t.name@.len()) =~= t.name@);
}

/// The targets are listed one behind the other.
pub proof fn law_target_lines_in_order(a: Seq<Listed>, b: Seq<Listed>)
    ensures
        target_lines(a + b) == target_lines(a) + target_lines(b),
        forall|x: Listed| target_lines(#[trigger] seq![x]) == target_line(x),
    decreases b.len(),
{
    assert forall|x: Listed| target_lines(#[trigger] seq![x]) == target_line(x) by {
        assert(seq![x].drop_last() =~= Seq::empty());
        assert(seq![x].last() == x);
        assert(target_lines(Seq::<Listed>::empty()) =~= Seq::empty());
        assert(target_lines(seq![x]) =~= target_lines(Seq::<Listed>::empty()) + target_line(x));
    }
    if b.len() == 0 {
        assert(a + b =~= a);
        assert(target_lines(a) + target_lines(b) =~= target_lines(a));
    } else {
        law_target_lines_in_order(a, b.drop_last());
        assert((a + b).drop_last() =~= a + b.drop_last());
        assert((a + b).last() == b.last());
        assert(target_lines(a + b) =~= target_lines(a) + target_lines(b));
    }
}

/// The plans are listed one behind the other.
pub proof fn law_plan_entries_in_order(a: Seq<Written>, b: Seq<Written>)
    ensures
        plan_entries(a + b) == plan_entries(a) + plan_entries(b),
        forall|x: Written| plan_entries(#[trigger] seq![x]) == plan_entry(x),
    decreases b.len(),
{
    assert forall|x: Written| plan_entries(#[trigger] seq![x]) == plan_entry(x) by {
        assert(seq![x].drop_last() =~= Seq::empty());
        assert(seq![x].last() == x);
        assert(plan_entries(Seq::<Written>::empty()) =~= Seq::empty());
        assert(plan_entries(seq![x]) =~= plan_entries(Seq::<Written>::empty()) + plan_entry(x));
    }
    if b.len() == 0 {
        assert(a + b =~= a);
        assert(plan_entries(a) + plan_entries(b) =~= plan_entries(a));
    } else {
        law_plan_entries_in_order(a, b.drop_last());
        assert((a + b).drop_last() =~= a + b.drop_last());
        assert((a + b).last() == b.last());
        assert(plan_entries(a + b) =~= plan_entries(a) + plan_entries(b));
    }
}

} // verus!
