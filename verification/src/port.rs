use vstd::prelude::*;
use rand::rngs::StdRng;
use crate::color::{lemma_all_colors, Color};
use crate::geometry::Position;
use crate::random::{gen_below, sample_slice};

verus! {

/// A harbour at a fixed position that asks for one colour of goods and
/// offers another.
#[derive(Debug, Clone, Copy, PartialEq, Eq, Structural)]
pub struct Port {
    pub import: Color,
    pub export: Color,
    pub position: Position,
}

impl Port {
    /// Creates a port at `position` with a freshly drawn pair of colours.
    pub fn new(position: Position, gen: &mut StdRng) -> (p: Port)
        ensures
            p.position == position,
            p.import != p.export,
    {
        let (import, export) = Port::sample_colors(gen);
        Port { position, import, export }
    }

    /// Creates a port that imports and exports the given colours.
    pub fn with_colors(position: Position, import: Color, export: Color) -> (p: Port)
        ensures
            p == (Port { import, export, position }),
    {
        Port { position, import, export }
    }

    /// Returns the position.
    pub fn position(self) -> (p: Position)
        ensures
            p == self.position,
    {
        self.position
    }

    /// Returns the current import colour.
    pub fn import(&self) -> (c: Color)
        ensures
            c == self.import,
    {
        self.import
    }

    /// Returns the current export colour.
    pub fn export(&self) -> (c: Color)
        ensures
            c == self.export,
    {
        self.export
    }

    /// Returns a mutable reference to the current import colour.
    pub fn import_mut(&mut self) -> (c: &mut Color)
        ensures
            *c == old(self).import,
            *final(self) == (Port { import: *final(c), ..*old(self) }),
    {
        &mut self.import
    }

    /// Returns a mutable reference to the current export colour.
    pub fn export_mut(&mut self) -> (c: &mut Color)
        ensures
            *c == old(self).export,
            *final(self) == (Port { export: *final(c), ..*old(self) }),
    {
        &mut self.export
    }

    /// Draws an import and an export colour: two different colours, whatever
    /// the generator yields.
    pub fn sample_colors(gen: &mut StdRng) -> (pair: (Color, Color))
        ensures
            pair.0 != pair.1,
    {
        let values = Color::values();
        let colors = sample_slice(gen, &values, 2);
        proof {
            lemma_all_colors(colors[0]);
            let at = choose|at: Seq<int>|
                at.len() == colors@.len() && at.no_duplicates() && (forall|k: int|
                    0 <= k < colors@.len() ==> 0 <= #[trigger] at[k] < values@.len()
                        && colors@[k] == values@[at[k]]);
            assert(at[0] != at[1]);
            assert(colors[0] == values[at[0]]);
            assert(colors[1] == values[at[1]]);
        }
        (colors[0], colors[1])
    }
}

/// The colours that the given ports import, port by port.
pub open spec fn imports_of(ports: Seq<Port>) -> Seq<Color> {
    ports.map_values(|port: Port| port.import)
}

/// The colours that the given ports export, port by port.
pub open spec fn exports_of(ports: Seq<Port>) -> Seq<Color> {
    ports.map_values(|port: Port| port.export)
}

/// The ports make a valid arrangement: no port imports what it exports,
/// every colour is imported somewhere and every colour is exported
/// somewhere.
pub open spec fn valid_arrangement(ports: Seq<Port>) -> bool {
    &&& forall|i: int| 0 <= i < ports.len() ==> (#[trigger] ports[i]).import != ports[i].export
    &&& forall|color: Color| #[trigger] imports_of(ports).contains(color)
    &&& forall|color: Color| #[trigger] exports_of(ports).contains(color)
}

/// Among the first `upto` of `drawn`, `left` holds the colours that are
/// still missing, each once.
spec fn missing(left: Seq<Color>, drawn: Seq<Color>, upto: int) -> bool {
    &&& left.no_duplicates()
    &&& forall|color: Color|
        #[trigger] left.contains(color) <==> !drawn.take(upto).contains(color)
}

/// Finds the place of `color` among `left`.
fn seek(left: &Vec<Color>, color: Color) -> (place: Option<usize>)
    ensures
        match place {
            Some(k) => k < left@.len() && left@[k as int] == color,
            None => !left@.contains(color),
        },
{
    let mut k: usize = 0;
    while k < left.len()
        invariant
            k <= left@.len(),
            forall|m: int| 0 <= m < k ==> left@[m] != color,
        decreases left@.len() - k,
    {
        if left[k] == color {
            return Some(k);
        }
        k += 1;
    }
    None
}

/// Takes `color` out of `left`, the colours still missing, as `drawn[upto]`
/// comes in.
fn strike(left: &mut Vec<Color>, color: Color, Ghost(drawn): Ghost<Seq<Color>>, Ghost(upto): Ghost<int>)
    requires
        0 <= upto < drawn.len(),
        drawn[upto] == color,
        missing(old(left)@, drawn, upto),
    ensures
        missing(final(left)@, drawn, upto + 1),
{
    let ghost before = left@;
    let ghost longer = drawn.take(upto + 1);
    let ghost shorter = drawn.take(upto);
    assert(longer =~= shorter.push(color));
    assert(longer[upto] == color);
    assert forall|other: Color| longer.contains(other) <==> (other == color || shorter.contains(
        other,
    )) by {
        if longer.contains(other) && other != color {
            let d = choose|d: int| 0 <= d < longer.len() && longer[d] == other;
            assert(shorter[d] == other);
        }
        if shorter.contains(other) {
            let d = choose|d: int| 0 <= d < shorter.len() && shorter[d] == other;
            assert(longer[d] == other);
        }
    }
    match seek(left, color) {
        Some(k) => {
            left.swap_remove(k);
            proof {
                let after = left@;
                assert forall|a: int, b: int|
                    0 <= a < after.len() && 0 <= b < after.len() && a != b implies after[a]
                    != after[b] by {
                    let from_a = if a == k {
                        before.len() - 1
                    } else {
                        a
                    };
                    let from_b = if b == k {
                        before.len() - 1
                    } else {
                        b
                    };
                    assert(after[a] == before[from_a]);
                    assert(after[b] == before[from_b]);
                }
                assert forall|other: Color| #[trigger]
                    after.contains(other) <==> !longer.contains(other) by {
                    if after.contains(other) {
                        let a = choose|a: int| 0 <= a < after.len() && after[a] == other;
                        let from = if a == k {
                            before.len() - 1
                        } else {
                            a
                        };
                        assert(before[from] == other);
                        assert(before.contains(other));
                        assert(from != k);
                    } else if other != color && !shorter.contains(other) {
                        assert(before.contains(other));
                        let b = choose|b: int| 0 <= b < before.len() && before[b] == other;
                        if b == before.len() - 1 {
                            assert(after[k as int] == other);
                        } else {
                            assert(after[b] == other);
                        }
                    }
                }
            }
        },
        None => {
            proof {
                assert forall|other: Color| #[trigger]
                    before.contains(other) <==> !longer.contains(other) by {}
            }
        },
    }
}

/// Returns whether the given ports are a valid arrangement of imports and
/// exports: no port imports what it exports, and each colour is imported by
/// some port and exported by some port.
pub fn is_valid_arrangement(ports: &[Port]) -> (valid: bool)
    ensures
        valid == valid_arrangement(ports@),
{
    let mut imports = Color::values();
    let mut exports = Color::values();
    let ghost imported = imports_of(ports@);
    let ghost exported = exports_of(ports@);
    proof {
        lemma_all_colors(Color::Blue);
        assert forall|color: Color| #[trigger]
            imports@.contains(color) <==> !imported.take(0).contains(color) by {
            lemma_all_colors(color);
        }
        assert forall|color: Color| #[trigger]
            exports@.contains(color) <==> !exported.take(0).contains(color) by {
            lemma_all_colors(color);
        }
    }
    let mut i: usize = 0;
    while i < ports.len()
        invariant
            i <= ports@.len(),
            imported == imports_of(ports@),
            exported == exports_of(ports@),
            missing(imports@, imported, i as int),
            missing(exports@, exported, i as int),
            forall|k: int| 0 <= k < i ==> (#[trigger] ports@[k]).import != ports@[k].export,
        decreases ports@.len() - i,
    {
        let import = ports[i].import();
        let export = ports[i].export();
        if import == export {
            return false;
        }
        strike(&mut imports, import, Ghost(imported), Ghost(i as int));
        strike(&mut exports, export, Ghost(exported), Ghost(i as int));
        i += 1;
    }
    proof {
        assert(imported.take(i as int) =~= imported);
        assert(exported.take(i as int) =~= exported);
        if imports@.len() > 0 {
            assert(imports@.contains(imports@[0]));
        } else {
            assert forall|color: Color| #[trigger] imported.contains(color) by {
                assert(!imports@.contains(color));
            }
        }
        if exports@.len() > 0 {
            assert(exports@.contains(exports@[0]));
        } else {
            assert forall|color: Color| #[trigger] exported.contains(color) by {
                assert(!exports@.contains(color));
            }
        }
    }
    imports.is_empty() && exports.is_empty()
}

/// Three colours among which every colour occurs are the three colours,
/// each exactly once.
pub proof fn lemma_each_color_once(colors: Seq<Color>)
    requires
        colors.len() == Color::all().len(),
        forall|color: Color| #[trigger] colors.contains(color),
    ensures
        colors.no_duplicates(),
        colors.to_multiset() == Color::all().to_multiset(),
{
    lemma_all_colors(Color::Blue);
    assert(colors.contains(Color::Blue));
    assert(colors.contains(Color::Green));
    assert(colors.contains(Color::Red));
    let blue = choose|i: int| 0 <= i < colors.len() && colors[i] == Color::Blue;
    let green = choose|i: int| 0 <= i < colors.len() && colors[i] == Color::Green;
    let red = choose|i: int| 0 <= i < colors.len() && colors[i] == Color::Red;
    assert(blue != green && green != red && blue != red);
    assert forall|a: int, b: int|
        0 <= a < colors.len() && 0 <= b < colors.len() && a != b implies colors[a] != colors[b] by {
        assert(a == blue || a == green || a == red);
        assert(b == blue || b == green || b == red);
    }
    colors.lemma_multiset_has_no_duplicates();
    Color::all().lemma_multiset_has_no_duplicates();
    colors.to_multiset_ensures();
    Color::all().to_multiset_ensures();
    assert forall|color: Color|
        colors.to_multiset().count(color) == Color::all().to_multiset().count(color) by {
        lemma_all_colors(color);
        assert(colors.contains(color));
        assert(colors.to_multiset().count(color) > 0);
        assert(Color::all().to_multiset().count(color) > 0);
        assert(colors.to_multiset().contains(color));
        assert(Color::all().to_multiset().contains(color));
    }
    assert(colors.to_multiset() =~= Color::all().to_multiset());
}

/// In a valid arrangement of as many ports as there are colours, each
/// colour is imported by exactly one port and exported by exactly one port:
/// the imports, taken together, are the colours, each once; and so are the
/// exports.
pub proof fn lemma_arrangement_covers_once(ports: Seq<Port>)
    requires
        valid_arrangement(ports),
        ports.len() == Color::all().len(),
    ensures
        imports_of(ports).to_multiset() == Color::all().to_multiset(),
        exports_of(ports).to_multiset() == Color::all().to_multiset(),
{
    lemma_each_color_once(imports_of(ports));
    lemma_each_color_once(exports_of(ports));
}

/// The ports with the colours of port `index` replaced.
pub open spec fn recolored(ports: Seq<Port>, index: int, import: Color, export: Color) -> Seq<Port> {
    ports.update(index, Port { import, export, position: ports[index].position })
}

/// Gives port `index` the colours drawn for it, and tells whether that
/// changed the port.
pub fn recolor(ports: &mut [Port], index: usize, import: Color, export: Color) -> (changed: bool)
    requires
        index < old(ports)@.len(),
    ensures
        changed == (old(ports)@[index as int].import != import || old(ports)@[index as int].export
            != export),
        final(ports)@ == recolored(old(ports)@, index as int, import, export),
{
    let port = ports[index];
    if port.import() != import || port.export() != export {
        ports[index] = Port { import, export, position: port.position };
        true
    } else {
        assert(ports@ =~= recolored(ports@, index as int, import, export));
        false
    }
}

/// What a draw did to the ports.
#[derive(Debug, Clone, Copy, PartialEq, Eq, Structural)]
pub enum Redraw {
    /// The port had the colours drawn already: nothing changed.
    Same,
    /// The port changed, and the ports are no valid arrangement.
    Changed,
    /// The port changed, and the ports are a valid arrangement.
    Settled,
}

/// What the draw of `import` and `export` for port `index` comes to.
pub open spec fn redrawn(ports: Seq<Port>, index: int, import: Color, export: Color) -> Redraw {
    if ports[index].import == import && ports[index].export == export {
        Redraw::Same
    } else if valid_arrangement(recolored(ports, index, import, export)) {
        Redraw::Settled
    } else {
        Redraw::Changed
    }
}

/// Takes one draw in a reshuffle: gives port `index` the colours drawn for
/// it and, if that changed the port, looks whether the ports now make a
/// valid arrangement.
pub fn redraw(ports: &mut [Port], index: usize, import: Color, export: Color) -> (outcome: Redraw)
    requires
        index < old(ports)@.len(),
    ensures
        final(ports)@ == recolored(old(ports)@, index as int, import, export),
        outcome == redrawn(old(ports)@, index as int, import, export),
{
    if !recolor(ports, index, import, export) {
        Redraw::Same
    } else if is_valid_arrangement(ports) {
        Redraw::Settled
    } else {
        Redraw::Changed
    }
}

/// The ports `after` are the ports `before` with other colours: as many
/// ports at the same positions.
pub open spec fn same_places(after: Seq<Port>, before: Seq<Port>) -> bool {
    &&& after.len() == before.len()
    &&& forall|i: int| 0 <= i < after.len() ==> (#[trigger] after[i]).position == before[i].position
}

/// One draw of a reshuffle: the place of the port drawn, and the colours
/// drawn for it.
#[derive(Debug, Clone, Copy, PartialEq, Eq, Structural)]
pub struct Draw {
    pub port: usize,
    pub import: Color,
    pub export: Color,
}

/// The ports after each of the draws was taken, one after the other.
pub open spec fn after_draws(ports: Seq<Port>, draws: Seq<Draw>) -> Seq<Port>
    decreases draws.len(),
{
    if draws.len() == 0 {
        ports
    } else {
        recolored(
            after_draws(ports, draws.drop_last()),
            draws.last().port as int,
            draws.last().import,
            draws.last().export,
        )
    }
}

/// What draw `k` came to, taken after the draws before it.
pub open spec fn outcome_of(ports: Seq<Port>, draws: Seq<Draw>, k: int) -> Redraw {
    redrawn(after_draws(ports, draws.take(k)), draws[k].port as int, draws[k].import, draws[k].export)
}

/// The places of the ports that the draws changed, in the order of the
/// draws; a port that was drawn with the colours it had does not count.
pub open spec fn changes(ports: Seq<Port>, draws: Seq<Draw>) -> Seq<usize>
    decreases draws.len(),
{
    if draws.len() == 0 {
        Seq::empty()
    } else if outcome_of(ports, draws, draws.len() - 1) != Redraw::Same {
        changes(ports, draws.drop_last()).push(draws.last().port)
    } else {
        changes(ports, draws.drop_last())
    }
}

/// Each draw picks one of the ports, and two different colours.
pub open spec fn fair_draws(ports: Seq<Port>, draws: Seq<Draw>) -> bool {
    forall|k: int|
        0 <= k < draws.len() ==> (#[trigger] draws[k]).port < ports.len() && draws[k].import
            != draws[k].export
}

/// A reshuffle that made the given draws turns the ports `before` into the
/// ports `after` and comes back with `changed`.
///
/// Draws are taken until one of them leaves a valid arrangement, which ends
/// the reshuffle: the ports are then as the draws left them, and the places
/// changed come back. No more than `attempts` draws are made. When they have
/// all been made and none has left a valid arrangement, the ports are as
/// they were before, and nothing comes back. Where there is no port, no draw
/// is made.
pub open spec fn reshuffled_by(
    before: Seq<Port>,
    after: Seq<Port>,
    changed: Option<Seq<usize>>,
    draws: Seq<Draw>,
    attempts: int,
) -> bool {
    &&& draws.len() <= attempts
    &&& fair_draws(before, draws)
    &&& forall|k: int|
        0 <= k < draws.len() - 1 ==> #[trigger] outcome_of(before, draws, k) != Redraw::Settled
    &&& match changed {
        Some(places) => {
            &&& draws.len() >= 1
            &&& outcome_of(before, draws, draws.len() - 1) == Redraw::Settled
            &&& after == after_draws(before, draws)
            &&& places == changes(before, draws)
        },
        None => {
            &&& before.len() == 0 ==> draws.len() == 0
            &&& before.len() > 0 ==> draws.len() == attempts
            &&& draws.len() >= 1 ==> outcome_of(before, draws, draws.len() - 1) != Redraw::Settled
            &&& after == before
        },
    }
}

/// Some sequence of draws accounts for the reshuffle.
pub open spec fn reshuffled(
    before: Seq<Port>,
    after: Seq<Port>,
    changed: Option<Seq<usize>>,
    attempts: int,
) -> bool {
    exists|draws: Seq<Draw>| #[trigger] reshuffled_by(before, after, changed, draws, attempts)
}

/// The places in a list that may be missing.
pub open spec fn places_view(changed: Option<Vec<usize>>) -> Option<Seq<usize>> {
    match changed {
        Some(places) => Some(places@),
        None => None,
    }
}

/// What one more draw adds to the draws made so far.
proof fn lemma_next_draw(before: Seq<Port>, draws: Seq<Draw>, next: Draw)
    ensures
        after_draws(before, draws.push(next)) == recolored(
            after_draws(before, draws),
            next.port as int,
            next.import,
            next.export,
        ),
        outcome_of(before, draws.push(next), draws.len() as int) == redrawn(
            after_draws(before, draws),
            next.port as int,
            next.import,
            next.export,
        ),
        changes(before, draws.push(next)) == (if redrawn(
            after_draws(before, draws),
            next.port as int,
            next.import,
            next.export,
        ) != Redraw::Same {
            changes(before, draws).push(next.port)
        } else {
            changes(before, draws)
        }),
        forall|k: int|
            0 <= k < draws.len() ==> #[trigger] outcome_of(before, draws.push(next), k)
                == outcome_of(before, draws, k),
{
    let longer = draws.push(next);
    assert(longer.drop_last() =~= draws);
    assert(longer.take(draws.len() as int) =~= draws);
    assert forall|k: int| 0 <= k < draws.len() implies #[trigger] outcome_of(before, longer, k)
        == outcome_of(before, draws, k) by {
        assert(longer.take(k) =~= draws.take(k));
    }
}

/// Changes the colours of ports at random until they make a valid
/// arrangement, in at most `attempts` draws.
///
/// Each draw picks one port and two different colours for it. A draw that
/// changes its port counts as a change; after each change the arrangement
/// is looked at, and the first valid one ends the reshuffle. The places of
/// the ports changed come back, in the order of the changes, for whoever
/// shows them. If the draws run out first, or there is no port, the ports
/// are left as they were and `None` comes back.
///
/// Which draws are made is up to the generator; what comes of the draws
/// made is not: see `reshuffled_by`.
pub fn update_port_colors(ports: &mut [Port], gen: &mut StdRng, attempts: usize) -> (changed: Option<Vec<usize>>)
    ensures
        reshuffled(old(ports)@, final(ports)@, places_view(changed), attempts as int),
        same_places(final(ports)@, old(ports)@),
        match changed {
            Some(places) => {
                &&& valid_arrangement(final(ports)@)
                &&& 1 <= places@.len() <= attempts
                &&& forall|k: int| 0 <= k < places@.len() ==> #[trigger] places@[k] < final(ports)@.len()
                &&& forall|i: int|
                    0 <= i < final(ports)@.len() && !places@.contains(i as usize)
                        ==> #[trigger] final(ports)@[i] == old(ports)@[i]
            },
            None => final(ports)@ == old(ports)@,
        },
{
    let count = ports.len();
    if count == 0 {
        proof {
            assert(reshuffled_by(ports@, ports@, None, Seq::<Draw>::empty(), attempts as int));
        }
        return None;
    }
    let mut saved: Vec<Port> = Vec::new();
    let mut i: usize = 0;
    while i < count
        invariant
            i <= count,
            count == ports@.len(),
            saved@ == ports@.take(i as int),
        decreases count - i,
    {
        saved.push(ports[i]);
        assert(ports@.take(i + 1) =~= ports@.take(i as int).push(ports@[i as int]));
        i += 1;
    }
    assert(saved@ =~= ports@);
    let mut places: Vec<usize> = Vec::new();
    let mut made: usize = 0;
    let ghost mut drawn: Seq<Draw> = Seq::empty();
    while made < attempts
        invariant
            count == ports@.len(),
            count > 0,
            saved@ == old(ports)@,
            same_places(ports@, saved@),
            made <= attempts,
            places@.len() <= made,
            forall|k: int| 0 <= k < places@.len() ==> #[trigger] places@[k] < count,
            forall|i: int|
                0 <= i < count && !places@.contains(i as usize) ==> #[trigger] ports@[i] == saved@[i],
            drawn.len() == made,
            fair_draws(saved@, drawn),
            ports@ == after_draws(saved@, drawn),
            places@ == changes(saved@, drawn),
            forall|k: int|
                0 <= k < drawn.len() ==> #[trigger] outcome_of(saved@, drawn, k) != Redraw::Settled,
        decreases attempts - made,
    {
        made += 1;
        let index = gen_below(gen, count);
        let (import, export) = Port::sample_colors(gen);
        let draw = Draw { port: index, import, export };
        let ghost earlier = ports@;
        let ghost marked = places@;
        let ghost before = drawn;
        let outcome = redraw(ports, draw.port, draw.import, draw.export);
        proof {
            lemma_next_draw(saved@, before, draw);
            drawn = before.push(draw);
            assert forall|k: int| 0 <= k < drawn.len() - 1 implies #[trigger] outcome_of(
                saved@,
                drawn,
                k,
            ) != Redraw::Settled by {
                assert(outcome_of(saved@, before, k) != Redraw::Settled);
            }
        }
        if outcome != Redraw::Same {
            places.push(index);
            proof {
                assert forall|i: int|
                    0 <= i < count && !places@.contains(i as usize) implies #[trigger] ports@[i]
                    == saved@[i] by {
                    assert(places@[marked.len() as int] == index);
                    assert(i != index);
                    if marked.contains(i as usize) {
                        let k = choose|k: int| 0 <= k < marked.len() && marked[k] == i as usize;
                        assert(places@[k] == i as usize);
                    }
                    assert(earlier[i] == saved@[i]);
                }
            }
            if outcome == Redraw::Settled {
                proof {
                    assert(reshuffled_by(saved@, ports@, Some(places@), drawn, attempts as int));
                }
                return Some(places);
            }
        }
    }
    let mut k: usize = 0;
    while k < count
        invariant
            k <= count,
            count == ports@.len(),
            count == saved@.len(),
            forall|m: int| 0 <= m < k ==> #[trigger] ports@[m] == saved@[m],
        decreases count - k,
    {
        ports[k] = saved[k];
        k += 1;
    }
    assert(ports@ =~= saved@);
    proof {
        assert(reshuffled_by(saved@, ports@, None, drawn, attempts as int));
    }
    None
}

} // verus!
