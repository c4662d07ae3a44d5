//! The editor's decisions, as commands on its marker components.
//!
//! The editor marks entities with three markers: `Selected` (inspector
//! listings the user picked), `Queried` (the object whose children the
//! inspector shows) and `Showing` (objects that have a listing).  Each
//! decision below returns the commands the editor issues, in order; the
//! caller applies them to the scene.
use vstd::prelude::*;
use vstd::string::*;
use crate::scene;
use crate::scene::GameObject;

verus! {

/// The editor's marker components.
#[derive(Clone, Copy, PartialEq, Eq, Structural, Debug)]
pub enum Marker {
    Selected,
    Queried,
    Showing,
}

/// A command on the scene.
#[derive(Clone, Copy, PartialEq, Eq, Structural, Debug)]
pub enum EditorCommand {
    /// Despawn the entity.
    Despawn(u64),
    /// Put the marker on the entity.
    Insert(Marker, u64),
    /// Take the marker off the entity.
    Remove(Marker, u64),
}

/// Which entities carry each marker.
pub struct MarkerSets {
    pub selected: Set<u64>,
    pub queried: Set<u64>,
    pub showing: Set<u64>,
}

pub open spec fn marked(m: MarkerSets, k: Marker) -> Set<u64> {
    match k {
        Marker::Selected => m.selected,
        Marker::Queried => m.queried,
        Marker::Showing => m.showing,
    }
}

pub open spec fn with_marked(m: MarkerSets, k: Marker, s: Set<u64>) -> MarkerSets {
    match k {
        Marker::Selected => MarkerSets { selected: s, queried: m.queried, showing: m.showing },
        Marker::Queried => MarkerSets { selected: m.selected, queried: s, showing: m.showing },
        Marker::Showing => MarkerSets { selected: m.selected, queried: m.queried, showing: s },
    }
}

/// The markers after one command.
pub open spec fn apply_command(m: MarkerSets, c: EditorCommand) -> MarkerSets {
    match c {
        EditorCommand::Despawn(e) => MarkerSets {
            selected: m.selected.remove(e),
            queried: m.queried.remove(e),
            showing: m.showing.remove(e),
        },
        EditorCommand::Insert(k, e) => with_marked(m, k, marked(m, k).insert(e)),
        EditorCommand::Remove(k, e) => with_marked(m, k, marked(m, k).remove(e)),
    }
}

/// The markers after a sequence of commands, applied in order.
pub open spec fn apply_commands(m: MarkerSets, cmds: Seq<EditorCommand>) -> MarkerSets
    decreases cmds.len(),
{
    if cmds.len() == 0 {
        m
    } else {
        apply_commands(apply_command(m, cmds[0]), cmds.drop_first())
    }
}

/// The entities of a sequence, as a set.
pub open spec fn as_set(s: Seq<u64>) -> Set<u64> {
    Set::new(|e: u64| s.contains(e))
}

/// Take `k` off every entity of `es`, in order.
pub open spec fn remove_all(k: Marker, es: Seq<u64>) -> Seq<EditorCommand> {
    es.map_values(|e: u64| EditorCommand::Remove(k, e))
}

pub proof fn lemma_apply_append(m: MarkerSets, a: Seq<EditorCommand>, b: Seq<EditorCommand>)
    ensures
        apply_commands(m, a + b) == apply_commands(apply_commands(m, a), b),
    decreases a.len(),
{
    if a.len() > 0 {
        assert((a + b).drop_first() =~= a.drop_first() + b);
        lemma_apply_append(apply_command(m, a[0]), a.drop_first(), b);
    } else {
        assert(a + b =~= b);
    }
}

pub proof fn lemma_apply_remove_all(m: MarkerSets, k: Marker, es: Seq<u64>)
    ensures
        apply_commands(m, remove_all(k, es)) == with_marked(m, k, marked(m, k).difference(as_set(es))),
    decreases es.len(),
{
    if es.len() == 0 {
        assert(marked(m, k).difference(as_set(es)) =~= marked(m, k));
        assert(with_marked(m, k, marked(m, k)) == m);
    } else {
        let m1 = apply_command(m, EditorCommand::Remove(k, es[0]));
        assert(remove_all(k, es).drop_first() =~= remove_all(k, es.drop_first()));
        lemma_apply_remove_all(m1, k, es.drop_first());
        assert(marked(m1, k).difference(as_set(es.drop_first())) =~= marked(m, k).difference(
            as_set(es),
        )) by {
            assert forall|e: u64| es.contains(e) <==> (e == es[0] || es.drop_first().contains(e)) by {
                if es.contains(e) {
                    let j = choose|j: int| 0 <= j < es.len() && es[j] == e;
                    if j > 0 {
                        assert(es.drop_first()[j - 1] == e);
                    }
                }
                if es.drop_first().contains(e) {
                    let j = choose|j: int| 0 <= j < es.drop_first().len() && es.drop_first()[j] == e;
                    assert(es[j + 1] == e);
                }
                if e == es[0] {
                    assert(es.contains(e));
                }
            }
        }
    }
}

/// A press on an inspector listing.
#[derive(Clone, Copy, PartialEq, Eq, Structural, Debug)]
pub struct ListingPress {
    /// The press was made with the primary pointer button.
    pub primary: bool,
    /// The left control key was held.
    pub ctrl: bool,
    /// The pressed listing.
    pub target: u64,
    /// The object the pressed listing stands for.
    pub target_object: u64,
}

/// The commands a press on a listing issues, given the selected listings
/// and the queried entities.
pub open spec fn press_commands(p: ListingPress, selected: Seq<u64>, queried: Seq<u64>) -> Seq<
    EditorCommand,
> {
    if !p.primary {
        seq![]
    } else {
        let enter = if selected.len() == 1 && !p.ctrl && selected[0] == p.target {
            remove_all(Marker::Selected, selected) + remove_all(Marker::Queried, queried) + seq![
                EditorCommand::Insert(Marker::Queried, p.target_object),
            ]
        } else {
            seq![]
        };
        let deselect = if !p.ctrl {
            remove_all(Marker::Selected, selected)
        } else if selected.contains(p.target) {
            seq![EditorCommand::Remove(Marker::Selected, p.target)]
        } else {
            seq![]
        };
        let select = if p.ctrl && selected.contains(p.target) {
            seq![]
        } else {
            seq![EditorCommand::Insert(Marker::Selected, p.target)]
        };
        enter + deselect + select
    }
}

fn remove_all_into(out: &mut Vec<EditorCommand>, k: Marker, es: &Vec<u64>)
    ensures
        final(out)@ == old(out)@ + remove_all(k, es@),
{
    let ghost start = out@;
    let mut j: usize = 0;
    while j < es.len()
        invariant
            j <= es.len(),
            start == old(out)@,
            out@ == start + remove_all(k, es@.take(j as int)),
        decreases es.len() - j,
    {
        out.push(EditorCommand::Remove(k, es[j]));
        proof {
            assert(remove_all(k, es@.take(j + 1)) =~= remove_all(k, es@.take(j as int)).push(
                EditorCommand::Remove(k, es@[j as int]),
            ));
        }
        j = j + 1;
    }
    assert(es@.take(es.len() as int) =~= es@);
}

fn contains_entity(es: &Vec<u64>, e: u64) -> (r: bool)
    ensures
        r == es@.contains(e),
{
    let mut j: usize = 0;
    while j < es.len()
        invariant
            j <= es.len(),
            forall|k: int| 0 <= k < j ==> es@[k] != e,
        decreases es.len() - j,
    {
        if es[j] == e {
            return true;
        }
        j = j + 1;
    }
    false
}

/// The commands issued when a listing is pressed.  A primary press without
/// control selects only the pressed listing, and pressing the one selected
/// listing again makes its object the queried one; with control, the press
/// adds the listing to the selection or takes it out.
pub fn press_listing(p: ListingPress, selected: &Vec<u64>, queried: &Vec<u64>) -> (cmds: Vec<
    EditorCommand,
>)
    ensures
        cmds@ == press_commands(p, selected@, queried@),
{
    let mut cmds: Vec<EditorCommand> = Vec::new();
    if !p.primary {
        return cmds;
    }
    let ghost empty = cmds@;
    if selected.len() == 1 && !p.ctrl && selected[0] == p.target {
        remove_all_into(&mut cmds, Marker::Selected, selected);
        remove_all_into(&mut cmds, Marker::Queried, queried);
        cmds.push(EditorCommand::Insert(Marker::Queried, p.target_object));
    }
    let ghost after_enter = cmds@;
    let is_selected = contains_entity(selected, p.target);
    if !p.ctrl {
        remove_all_into(&mut cmds, Marker::Selected, selected);
    } else if is_selected {
        cmds.push(EditorCommand::Remove(Marker::Selected, p.target));
    }
    let ghost after_deselect = cmds@;
    if !(p.ctrl && is_selected) {
        cmds.push(EditorCommand::Insert(Marker::Selected, p.target));
    }
    proof {
        assert(empty =~= Seq::<EditorCommand>::empty());
        let spec = press_commands(p, selected@, queried@);
        assert(cmds@ =~= spec);
    }
    cmds
}

/// The markers a decision starts from: the selected listings and queried
/// entities it is given, and the showing objects.
pub open spec fn markers_of(selected: Seq<u64>, queried: Seq<u64>, showing: Set<u64>) -> MarkerSets {
    MarkerSets { selected: as_set(selected), queried: as_set(queried), showing }
}

pub proof fn lemma_apply_single(m: MarkerSets, c: EditorCommand)
    ensures
        apply_commands(m, seq![c]) == apply_command(m, c),
{
    let rest = seq![c].drop_first();
    assert(rest =~= Seq::<EditorCommand>::empty());
    assert(apply_commands(apply_command(m, c), rest) == apply_command(m, c));
}

pub proof fn lemma_apply_empty(m: MarkerSets)
    ensures
        apply_commands(m, Seq::<EditorCommand>::empty()) == m,
{
}

/// What a press on a listing does to the markers.  A press with another
/// button changes nothing.  A primary press without control leaves exactly
/// the pressed listing selected; with control it takes the pressed listing
/// out of the selection when it was in, and adds it otherwise.  Pressing,
/// without control, the one selected listing makes its object the only
/// queried entity; no other press changes what is queried, and no press
/// changes what is showing.
pub proof fn lemma_press_listing_effect(
    p: ListingPress,
    selected: Seq<u64>,
    queried: Seq<u64>,
    showing: Set<u64>,
)
    ensures
        ({
            let before = markers_of(selected, queried, showing);
            let after = apply_commands(before, press_commands(p, selected, queried));
            let enters = p.primary && !p.ctrl && selected.len() == 1 && selected[0] == p.target;
            &&& after.showing == showing
            &&& !p.primary ==> after == before
            &&& p.primary && !p.ctrl ==> after.selected == set![p.target]
            &&& p.primary && p.ctrl ==> after.selected == (if selected.contains(p.target) {
                as_set(selected).remove(p.target)
            } else {
                as_set(selected).insert(p.target)
            })
            &&& enters ==> after.queried == set![p.target_object]
            &&& !enters ==> after.queried == as_set(queried)
        }),
{
    let before = markers_of(selected, queried, showing);
    let cmds = press_commands(p, selected, queried);
    if !p.primary {
        lemma_apply_empty(before);
        return ;
    }
    let sel = as_set(selected);
    if !p.ctrl {
        let tail = remove_all(Marker::Selected, selected) + seq![
            EditorCommand::Insert(Marker::Selected, p.target),
        ];
        let mid = if selected.len() == 1 && selected[0] == p.target {
            let enter = remove_all(Marker::Selected, selected) + remove_all(Marker::Queried, queried)
                + seq![EditorCommand::Insert(Marker::Queried, p.target_object)];
            assert(cmds =~= enter + tail);
            lemma_apply_append(before, enter, tail);
            lemma_apply_append(
                before,
                remove_all(Marker::Selected, selected) + remove_all(Marker::Queried, queried),
                seq![EditorCommand::Insert(Marker::Queried, p.target_object)],
            );
            lemma_apply_append(
                before,
                remove_all(Marker::Selected, selected),
                remove_all(Marker::Queried, queried),
            );
            lemma_apply_remove_all(before, Marker::Selected, selected);
            let m1 = apply_commands(before, remove_all(Marker::Selected, selected));
            lemma_apply_remove_all(m1, Marker::Queried, queried);
            let m2 = apply_commands(m1, remove_all(Marker::Queried, queried));
            lemma_apply_single(m2, EditorCommand::Insert(Marker::Queried, p.target_object));
            let m3 = apply_commands(before, enter);
            assert(m3.queried =~= set![p.target_object]);
            m3
        } else {
            assert(cmds =~= tail);
            before
        };
        lemma_apply_append(mid, remove_all(Marker::Selected, selected), seq![
            EditorCommand::Insert(Marker::Selected, p.target),
        ]);
        lemma_apply_remove_all(mid, Marker::Selected, selected);
        let m4 = apply_commands(mid, remove_all(Marker::Selected, selected));
        lemma_apply_single(m4, EditorCommand::Insert(Marker::Selected, p.target));
        let after = apply_commands(mid, tail);
        assert(after.selected =~= set![p.target]);
        assert(after.showing == showing);
        if !(selected.len() == 1 && selected[0] == p.target) {
            assert(after.queried == as_set(queried));
        }
    } else {
        if selected.contains(p.target) {
            assert(cmds =~= seq![EditorCommand::Remove(Marker::Selected, p.target)]);
            lemma_apply_single(before, EditorCommand::Remove(Marker::Selected, p.target));
        } else {
            assert(cmds =~= seq![EditorCommand::Insert(Marker::Selected, p.target)]);
            lemma_apply_single(before, EditorCommand::Insert(Marker::Selected, p.target));
        }
    }
}

/// Two primary presses with control on the same listing leave the selection
/// as it was before them.
pub proof fn lemma_ctrl_press_twice_restores(
    p: ListingPress,
    selected: Seq<u64>,
    queried: Seq<u64>,
    showing: Set<u64>,
    selected2: Seq<u64>,
    queried2: Seq<u64>,
    showing2: Set<u64>,
)
    requires
        p.primary,
        p.ctrl,
        as_set(selected2) == apply_commands(
            markers_of(selected, queried, showing),
            press_commands(p, selected, queried),
        ).selected,
    ensures
        apply_commands(
            markers_of(selected2, queried2, showing2),
            press_commands(p, selected2, queried2),
        ).selected == as_set(selected),
{
    lemma_press_listing_effect(p, selected, queried, showing);
    lemma_press_listing_effect(p, selected2, queried2, showing2);
    assert(selected2.contains(p.target) <==> as_set(selected2).contains(p.target));
    assert(selected.contains(p.target) <==> as_set(selected).contains(p.target));
    let after2 = apply_commands(
        markers_of(selected2, queried2, showing2),
        press_commands(p, selected2, queried2),
    );
    assert(after2.selected =~= as_set(selected));
}

/// The commands of the button that leaves the queried object: with the
/// primary button, take `Queried` off every queried entity and `Showing`
/// off every showing one.
pub open spec fn leave_commands(primary: bool, queried: Seq<u64>, showing: Seq<u64>) -> Seq<
    EditorCommand,
> {
    if primary {
        remove_all(Marker::Queried, queried) + remove_all(Marker::Showing, showing)
    } else {
        seq![]
    }
}

/// The commands issued when the button that leaves the queried object is pressed.
pub fn leave_queried(primary: bool, queried: &Vec<u64>, showing: &Vec<u64>) -> (cmds: Vec<
    EditorCommand,
>)
    ensures
        cmds@ == leave_commands(primary, queried@, showing@),
{
    let mut cmds: Vec<EditorCommand> = Vec::new();
    if primary {
        remove_all_into(&mut cmds, Marker::Queried, queried);
        remove_all_into(&mut cmds, Marker::Showing, showing);
    }
    cmds
}

/// After a primary press on the leave button, no entity is queried or
/// showing, and the selection is as it was.
pub proof fn lemma_leave_queried_clears(
    queried: Seq<u64>,
    showing: Seq<u64>,
    selected: Set<u64>,
)
    ensures
        ({
            let before = MarkerSets { selected, queried: as_set(queried), showing: as_set(showing) };
            let after = apply_commands(before, leave_commands(true, queried, showing));
            &&& after.queried == Set::<u64>::empty()
            &&& after.showing == Set::<u64>::empty()
            &&& after.selected == selected
        }),
{
    let before = MarkerSets { selected, queried: as_set(queried), showing: as_set(showing) };
    lemma_apply_append(before, remove_all(Marker::Queried, queried), remove_all(Marker::Showing, showing));
    lemma_apply_remove_all(before, Marker::Queried, queried);
    let m1 = apply_commands(before, remove_all(Marker::Queried, queried));
    lemma_apply_remove_all(m1, Marker::Showing, showing);
    let after = apply_commands(before, leave_commands(true, queried, showing));
    assert(after.queried =~= Set::<u64>::empty());
    assert(after.showing =~= Set::<u64>::empty());
}

/// The commands that fall back to the root when nothing is queried.
pub open spec fn fallback_commands(queried_count: nat, root: u64) -> Seq<EditorCommand> {
    if queried_count == 0 {
        seq![EditorCommand::Insert(Marker::Queried, root)]
    } else {
        seq![]
    }
}

/// When no entity is queried, the root becomes the queried entity.
pub fn fallback_to_root(queried_count: usize, root: u64) -> (cmds: Vec<EditorCommand>)
    ensures
        cmds@ == fallback_commands(queried_count as nat, root),
{
    let mut cmds: Vec<EditorCommand> = Vec::new();
    if queried_count == 0 {
        cmds.push(EditorCommand::Insert(Marker::Queried, root));
    }
    proof {
        assert(cmds@ =~= fallback_commands(queried_count as nat, root));
    }
    cmds
}

/// After the fallback, some entity is queried: the root when none was.
pub proof fn lemma_fallback_leaves_something_queried(m: MarkerSets, root: u64)
    requires
        m.queried.finite(),
    ensures
        !apply_commands(m, fallback_commands(m.queried.len(), root)).queried.is_empty(),
        m.queried.is_empty() ==> apply_commands(m, fallback_commands(m.queried.len(), root)).queried
            == set![root],
{
    if m.queried.len() == 0 {
        lemma_apply_single(m, EditorCommand::Insert(Marker::Queried, root));
        let after = apply_commands(m, fallback_commands(m.queried.len(), root));
        assert(after.queried.contains(root));
        m.queried.lemma_len0_is_empty();
        assert(after.queried =~= set![root]);
    } else {
        lemma_apply_empty(m);
        if m.queried.is_empty() {
            assert(m.queried =~= Set::<u64>::empty());
        }
    }
}

/// The commands that delete objects: when the delete key is held, despawn
/// the object of every selected listing.
pub open spec fn delete_commands(delete_pressed: bool, selected_objects: Seq<scene::GameObjectModel>) -> Seq<
    EditorCommand,
> {
    if delete_pressed {
        selected_objects.map_values(|o: scene::GameObjectModel| EditorCommand::Despawn(o.ent))
    } else {
        seq![]
    }
}

/// The objects of the selected listings are despawned while the delete key is held.
pub fn delete_objects(delete_pressed: bool, selected_objects: &Vec<GameObject>) -> (cmds: Vec<
    EditorCommand,
>)
    ensures
        cmds@ == delete_commands(delete_pressed, scene::objects_view(selected_objects@)),
{
    let ghost ov = scene::objects_view(selected_objects@);
    let mut cmds: Vec<EditorCommand> = Vec::new();
    if delete_pressed {
        let mut j: usize = 0;
        while j < selected_objects.len()
            invariant
                j <= selected_objects.len(),
                ov == scene::objects_view(selected_objects@),
                cmds@ == ov.take(j as int).map_values(
                    |o: scene::GameObjectModel| EditorCommand::Despawn(o.ent),
                ),
            decreases selected_objects.len() - j,
        {
            cmds.push(EditorCommand::Despawn(selected_objects[j].ent));
            proof {
                assert(ov[j as int] == selected_objects@[j as int]@);
                assert(cmds@ =~= ov.take(j + 1).map_values(
                    |o: scene::GameObjectModel| EditorCommand::Despawn(o.ent),
                ));
            }
            j = j + 1;
        }
        assert(ov.take(selected_objects.len() as int) =~= ov);
    }
    proof {
        if !delete_pressed {
            assert(cmds@ =~= delete_commands(delete_pressed, ov));
        }
    }
    cmds
}

/// The pointer's relation to a button.
#[derive(Clone, Copy, PartialEq, Eq, Structural, Debug)]
pub enum PointerInteraction {
    Idle,
    Hovered,
    Pressed,
}

/// The background shade of a listing.
#[derive(Clone, Copy, PartialEq, Eq, Structural, Debug)]
pub enum ListingShade {
    Idle,
    Hovered,
    Pressed,
    Selected,
}

pub open spec fn shade_of(i: PointerInteraction) -> ListingShade {
    match i {
        PointerInteraction::Idle => ListingShade::Idle,
        PointerInteraction::Hovered => ListingShade::Hovered,
        PointerInteraction::Pressed => ListingShade::Pressed,
    }
}

/// The shades the editor paints, in order: every button by its interaction,
/// then every selected listing with the selection shade.
pub open spec fn shade_commands(buttons: Seq<(u64, PointerInteraction)>, selected: Seq<u64>) -> Seq<
    (u64, ListingShade),
> {
    buttons.map_values(|b: (u64, PointerInteraction)| (b.0, shade_of(b.1))) + selected.map_values(
        |e: u64| (e, ListingShade::Selected),
    )
}

/// The last shade painted on `e` by `cmds`, if any.
pub open spec fn last_shade(cmds: Seq<(u64, ListingShade)>, e: u64) -> Option<ListingShade>
    decreases cmds.len(),
{
    if cmds.len() == 0 {
        None
    } else if cmds.last().0 == e {
        Some(cmds.last().1)
    } else {
        last_shade(cmds.drop_last(), e)
    }
}

/// The shades painted on the listings.
pub fn color_selected(buttons: &Vec<(u64, PointerInteraction)>, selected: &Vec<u64>) -> (cmds: Vec<
    (u64, ListingShade),
>)
    ensures
        cmds@ == shade_commands(buttons@, selected@),
{
    let mut cmds: Vec<(u64, ListingShade)> = Vec::new();
    let mut j: usize = 0;
    while j < buttons.len()
        invariant
            j <= buttons.len(),
            cmds@ == buttons@.take(j as int).map_values(
                |b: (u64, PointerInteraction)| (b.0, shade_of(b.1)),
            ),
        decreases buttons.len() - j,
    {
        let (e, i) = buttons[j];
        let shade = match i {
            PointerInteraction::Idle => ListingShade::Idle,
            PointerInteraction::Hovered => ListingShade::Hovered,
            PointerInteraction::Pressed => ListingShade::Pressed,
        };
        cmds.push((e, shade));
        proof {
            assert(cmds@ =~= buttons@.take(j + 1).map_values(
                |b: (u64, PointerInteraction)| (b.0, shade_of(b.1)),
            ));
        }
        j = j + 1;
    }
    let ghost first = cmds@;
    assert(buttons@.take(buttons.len() as int) =~= buttons@);
    let mut k: usize = 0;
    while k < selected.len()
        invariant
            k <= selected.len(),
            cmds@ == first + selected@.take(k as int).map_values(
                |e: u64| (e, ListingShade::Selected),
            ),
        decreases selected.len() - k,
    {
        cmds.push((selected[k], ListingShade::Selected));
        proof {
            assert(cmds@ =~= first + selected@.take(k + 1).map_values(
                |e: u64| (e, ListingShade::Selected),
            ));
        }
        k = k + 1;
    }
    assert(selected@.take(selected.len() as int) =~= selected@);
    cmds
}

/// A selected listing ends up with the selection shade; any other button
/// ends up with the shade of its last interaction.
pub proof fn lemma_selected_shade_wins(
    buttons: Seq<(u64, PointerInteraction)>,
    selected: Seq<u64>,
    e: u64,
)
    ensures
        selected.contains(e) ==> last_shade(shade_commands(buttons, selected), e) == Some(
            ListingShade::Selected,
        ),
        !selected.contains(e) ==> last_shade(shade_commands(buttons, selected), e) == last_shade(
            buttons.map_values(|b: (u64, PointerInteraction)| (b.0, shade_of(b.1))),
            e,
        ),
    decreases selected.len(),
{
    let painted = buttons.map_values(|b: (u64, PointerInteraction)| (b.0, shade_of(b.1)));
    if selected.len() == 0 {
        assert(shade_commands(buttons, selected) =~= painted);
    } else {
        let rest = selected.drop_last();
        lemma_selected_shade_wins(buttons, rest, e);
        let all = shade_commands(buttons, selected);
        assert(all.drop_last() =~= shade_commands(buttons, rest));
        assert(all.last() == (selected.last(), ListingShade::Selected));
        if selected.contains(e) && selected.last() != e {
            let j = choose|j: int| 0 <= j < selected.len() && selected[j] == e;
            assert(rest[j] == e);
        }
        if rest.contains(e) {
            let j = choose|j: int| 0 <= j < rest.len() && rest[j] == e;
            assert(selected[j] == e);
        }
    }
}

/// A listing of the inspector: its entity and the object it stands for.
pub struct InspectorListing {
    pub entity: u64,
    pub obj: GameObject,
}

impl View for InspectorListing {
    type V = (u64, scene::GameObjectModel);

    open spec fn view(&self) -> (u64, scene::GameObjectModel) {
        (self.entity, self.obj@)
    }
}

pub open spec fn listings_view(v: Seq<InspectorListing>) -> Seq<(u64, scene::GameObjectModel)> {
    v.map_values(|l: InspectorListing| l@)
}

pub open spec fn children_view(c: Option<Vec<u64>>) -> Option<Seq<u64>> {
    match c {
        Some(v) => Some(v@),
        None => None,
    }
}

/// `e` is a child of the queried object (there is none when the queried
/// object is not known).
pub open spec fn is_child(children: Option<Seq<u64>>, e: u64) -> bool {
    match children {
        Some(c) => c.contains(e),
        None => false,
    }
}

/// Some listing stands for an object equal to `o`.
pub open spec fn has_listing(ls: Seq<(u64, scene::GameObjectModel)>, o: scene::GameObjectModel) -> bool {
    exists|j: int| 0 <= j < ls.len() && #[trigger] ls[j].1 == o
}

/// The entities of the listings whose object is not a child of the queried
/// object, in order.
pub open spec fn removed_listings(ls: Seq<(u64, scene::GameObjectModel)>, ch: Option<Seq<u64>>) -> Seq<
    u64,
>
    decreases ls.len(),
{
    if ls.len() == 0 {
        seq![]
    } else {
        let rest = removed_listings(ls.drop_last(), ch);
        if !is_child(ch, ls.last().1.ent) {
            rest.push(ls.last().0)
        } else {
            rest
        }
    }
}

/// The indices of the objects that are children of the queried object and
/// have no listing, in order.
pub open spec fn objects_to_list(
    ls: Seq<(u64, scene::GameObjectModel)>,
    objs: Seq<scene::GameObjectModel>,
    ch: Option<Seq<u64>>,
) -> Seq<int>
    decreases objs.len(),
{
    if objs.len() == 0 {
        seq![]
    } else {
        let rest = objects_to_list(ls, objs.drop_last(), ch);
        let o = objs.last();
        if !has_listing(ls, o) && is_child(ch, o.ent) {
            rest.push(objs.len() - 1)
        } else {
            rest
        }
    }
}

/// What the inspector update does: the listings to despawn, and the
/// objects (by index) to give a listing and mark as showing.
pub struct InspectorUpdate {
    pub removed_listings: Vec<u64>,
    pub listed_objects: Vec<usize>,
}

fn is_child_exec(children: &Option<Vec<u64>>, e: u64) -> (r: bool)
    ensures
        r == is_child(children_view(*children), e),
{
    match children {
        Some(c) => contains_entity(c, e),
        None => false,
    }
}

fn has_listing_exec(listings: &Vec<InspectorListing>, o: &GameObject) -> (r: bool)
    ensures
        r == has_listing(listings_view(listings@), o@),
{
    let ghost lv = listings_view(listings@);
    let mut j: usize = 0;
    while j < listings.len()
        invariant
            j <= listings.len(),
            lv == listings_view(listings@),
            forall|k: int| 0 <= k < j ==> #[trigger] lv[k].1 != o@,
        decreases listings.len() - j,
    {
        assert(lv[j as int] == listings@[j as int]@);
        if listings[j].obj.same_as(o) {
            assert(lv[j as int].1 == o@);
            return true;
        }
        j = j + 1;
    }
    false
}

/// Brings the inspector in line with the children of the queried object:
/// listings whose object is not such a child are despawned, and every child
/// object without a listing (among those not yet showing) gets one.
pub fn update_inspector_list(
    listings: &Vec<InspectorListing>,
    objects: &Vec<GameObject>,
    queried_children: &Option<Vec<u64>>,
) -> (u: InspectorUpdate)
    ensures
        u.removed_listings@ == removed_listings(listings_view(listings@), children_view(*queried_children)),
        u.listed_objects@.map_values(|k: usize| k as int) == objects_to_list(
            listings_view(listings@),
            scene::objects_view(objects@),
            children_view(*queried_children),
        ),
        u.removed_listings@ == listings_view(listings@).filter(
            |l: (u64, scene::GameObjectModel)| !is_child(children_view(*queried_children), l.1.ent),
        ).map_values(|l: (u64, scene::GameObjectModel)| l.0),
        forall|k: int|
            0 <= k < objects.len() ==> (#[trigger] u.listed_objects@.contains(k as usize) <==> (
            !has_listing(listings_view(listings@), objects@[k]@) && is_child(
                children_view(*queried_children),
                objects@[k].ent,
            ))),
        forall|a: int, b: int|
            0 <= a < b < u.listed_objects.len() ==> #[trigger] u.listed_objects@[a]
                < #[trigger] u.listed_objects@[b],
        forall|a: int| 0 <= a < u.listed_objects.len() ==> #[trigger] u.listed_objects@[a] < objects.len(),
{
    let ghost lv = listings_view(listings@);
    let ghost ov = scene::objects_view(objects@);
    let ghost ch = children_view(*queried_children);
    let mut removed: Vec<u64> = Vec::new();
    let mut j: usize = 0;
    while j < listings.len()
        invariant
            j <= listings.len(),
            lv == listings_view(listings@),
            ch == children_view(*queried_children),
            removed@ == removed_listings(lv.take(j as int), ch),
        decreases listings.len() - j,
    {
        assert(lv[j as int] == listings@[j as int]@);
        assert(lv.take(j + 1).drop_last() =~= lv.take(j as int));
        if !is_child_exec(queried_children, listings[j].obj.ent) {
            removed.push(listings[j].entity);
        }
        j = j + 1;
    }
    assert(lv.take(listings.len() as int) =~= lv);
    let mut listed: Vec<usize> = Vec::new();
    let mut k: usize = 0;
    while k < objects.len()
        invariant
            k <= objects.len(),
            lv == listings_view(listings@),
            ov == scene::objects_view(objects@),
            ch == children_view(*queried_children),
            listed@.map_values(|x: usize| x as int) == objects_to_list(lv, ov.take(k as int), ch),
        decreases objects.len() - k,
    {
        assert(ov[k as int] == objects@[k as int]@);
        assert(ov.take(k + 1).drop_last() =~= ov.take(k as int));
        let ghost before = listed@;
        if !has_listing_exec(listings, &objects[k]) && is_child_exec(queried_children, objects[k].ent) {
            listed.push(k);
            assert(listed@.map_values(|x: usize| x as int) =~= before.map_values(|x: usize| x as int).push(k as int));
        }
        k = k + 1;
    }
    assert(ov.take(objects.len() as int) =~= ov);
    proof {
        lemma_removed_listings_filter(lv, ch);
        lemma_objects_to_list_members(lv, ov, ch);
        let li = listed@.map_values(|x: usize| x as int);
        assert forall|k: int| 0 <= k < objects.len() implies (#[trigger] listed@.contains(k as usize) <==> (
        !has_listing(lv, objects@[k]@) && is_child(ch, objects@[k].ent))) by {
            assert(ov[k] == objects@[k]@);
            if listed@.contains(k as usize) {
                let a = choose|a: int| 0 <= a < listed@.len() && listed@[a] == k as usize;
                assert(li[a] == k);
                assert(li.contains(k));
            }
            if li.contains(k) {
                let a = choose|a: int| 0 <= a < li.len() && li[a] == k;
                assert(listed@[a] == k as usize);
            }
        }
        assert forall|a: int, b: int| 0 <= a < b < listed.len() implies #[trigger] listed@[a]
            < #[trigger] listed@[b] by {
            assert(li[a] < li[b]);
        }
        assert forall|a: int| 0 <= a < listed.len() implies #[trigger] listed@[a] < objects.len() by {
            assert(li[a] < ov.len());
        }
    }
    InspectorUpdate { removed_listings: removed, listed_objects: listed }
}

/// The listings that stay: those whose object is a child of the queried object.
pub open spec fn kept_listings(ls: Seq<(u64, scene::GameObjectModel)>, ch: Option<Seq<u64>>) -> Seq<
    (u64, scene::GameObjectModel),
>
    decreases ls.len(),
{
    if ls.len() == 0 {
        seq![]
    } else {
        let rest = kept_listings(ls.drop_last(), ch);
        if is_child(ch, ls.last().1.ent) {
            rest.push(ls.last())
        } else {
            rest
        }
    }
}

/// The listings added for the objects at `idxs`, with the entities `ents`.
pub open spec fn new_listings(
    objs: Seq<scene::GameObjectModel>,
    idxs: Seq<int>,
    ents: Seq<u64>,
) -> Seq<(u64, scene::GameObjectModel)> {
    Seq::new(idxs.len(), |j: int| (ents[j], objs[idxs[j]]))
}

/// The objects that are still not showing after the update: all but the
/// ones that got a listing.
pub open spec fn unlisted_objects(
    ls: Seq<(u64, scene::GameObjectModel)>,
    objs: Seq<scene::GameObjectModel>,
    ch: Option<Seq<u64>>,
) -> Seq<scene::GameObjectModel>
    decreases objs.len(),
{
    if objs.len() == 0 {
        seq![]
    } else {
        let rest = unlisted_objects(ls, objs.drop_last(), ch);
        let o = objs.last();
        if !has_listing(ls, o) && is_child(ch, o.ent) {
            rest
        } else {
            rest.push(o)
        }
    }
}

proof fn lemma_removed_empty(ls: Seq<(u64, scene::GameObjectModel)>, ch: Option<Seq<u64>>)
    requires
        forall|j: int| 0 <= j < ls.len() ==> is_child(ch, #[trigger] ls[j].1.ent),
    ensures
        removed_listings(ls, ch) == Seq::<u64>::empty(),
    decreases ls.len(),
{
    if ls.len() > 0 {
        let init = ls.drop_last();
        assert forall|j: int| 0 <= j < init.len() implies is_child(ch, #[trigger] init[j].1.ent) by {
            assert(init[j] == ls[j]);
        }
        lemma_removed_empty(init, ch);
        assert(is_child(ch, ls[ls.len() - 1].1.ent));
    }
}

proof fn lemma_nothing_to_list(
    ls: Seq<(u64, scene::GameObjectModel)>,
    objs: Seq<scene::GameObjectModel>,
    ch: Option<Seq<u64>>,
)
    requires
        forall|k: int| 0 <= k < objs.len() ==> has_listing(ls, #[trigger] objs[k]) || !is_child(ch, objs[k].ent),
    ensures
        objects_to_list(ls, objs, ch) == Seq::<int>::empty(),
    decreases objs.len(),
{
    if objs.len() > 0 {
        let init = objs.drop_last();
        assert forall|k: int| 0 <= k < init.len() implies has_listing(ls, #[trigger] init[k]) || !is_child(ch, init[k].ent) by {
            assert(init[k] == objs[k]);
        }
        lemma_nothing_to_list(ls, init, ch);
        assert(has_listing(ls, objs[objs.len() - 1]) || !is_child(ch, objs[objs.len() - 1].ent));
    }
}

proof fn lemma_kept_listings(ls: Seq<(u64, scene::GameObjectModel)>, ch: Option<Seq<u64>>)
    ensures
        forall|j: int| 0 <= j < kept_listings(ls, ch).len() ==> is_child(ch, #[trigger] kept_listings(ls, ch)[j].1.ent),
        forall|j: int| 0 <= j < ls.len() && is_child(ch, #[trigger] ls[j].1.ent) ==> kept_listings(ls, ch).contains(ls[j]),
    decreases ls.len(),
{
    if ls.len() > 0 {
        let init = ls.drop_last();
        lemma_kept_listings(init, ch);
        let rest = kept_listings(init, ch);
        let kept = kept_listings(ls, ch);
        assert forall|j: int| 0 <= j < kept.len() implies is_child(ch, #[trigger] kept[j].1.ent) by {
            if j < rest.len() {
                assert(kept[j] == rest[j]);
            }
        }
        assert forall|j: int| 0 <= j < ls.len() && is_child(ch, #[trigger] ls[j].1.ent) implies kept.contains(ls[j]) by {
            if j < ls.len() - 1 {
                assert(init[j] == ls[j]);
                assert(rest.contains(ls[j]));
                let m = choose|m: int| 0 <= m < rest.len() && rest[m] == ls[j];
                assert(kept[m] == ls[j]);
            } else {
                assert(kept[kept.len() - 1] == ls[j]);
            }
        }
    }
}

proof fn lemma_objects_to_list_children(
    ls: Seq<(u64, scene::GameObjectModel)>,
    objs: Seq<scene::GameObjectModel>,
    ch: Option<Seq<u64>>,
)
    ensures
        forall|k: int| 0 <= k < objects_to_list(ls, objs, ch).len() ==> 0 <= #[trigger] objects_to_list(ls, objs, ch)[k] < objs.len()
            && is_child(ch, objs[objects_to_list(ls, objs, ch)[k]].ent),
    decreases objs.len(),
{
    if objs.len() > 0 {
        let init = objs.drop_last();
        lemma_objects_to_list_children(ls, init, ch);
        let rest = objects_to_list(ls, init, ch);
        let all = objects_to_list(ls, objs, ch);
        assert forall|k: int| 0 <= k < all.len() implies 0 <= #[trigger] all[k] < objs.len() && is_child(ch, objs[all[k]].ent) by {
            if k < rest.len() {
                assert(all[k] == rest[k]);
                assert(init[rest[k]] == objs[rest[k]]);
            }
        }
    }
}

proof fn lemma_unlisted_objects(
    ls: Seq<(u64, scene::GameObjectModel)>,
    objs: Seq<scene::GameObjectModel>,
    ch: Option<Seq<u64>>,
)
    ensures
        forall|k: int| 0 <= k < unlisted_objects(ls, objs, ch).len() ==> has_listing(ls, #[trigger] unlisted_objects(ls, objs, ch)[k])
            || !is_child(ch, unlisted_objects(ls, objs, ch)[k].ent),
    decreases objs.len(),
{
    if objs.len() > 0 {
        let init = objs.drop_last();
        lemma_unlisted_objects(ls, init, ch);
        let rest = unlisted_objects(ls, init, ch);
        let all = unlisted_objects(ls, objs, ch);
        assert forall|k: int| 0 <= k < all.len() implies has_listing(ls, #[trigger] all[k]) || !is_child(ch, all[k].ent) by {
            if k < rest.len() {
                assert(all[k] == rest[k]);
            }
        }
    }
}

/// One inspector update brings the inspector to rest: once its listings are
/// despawned and its objects listed (with any new listing entities) and
/// marked showing, a second update, meeting the listings and the objects
/// still not showing in any order, finds nothing to despawn and nothing to
/// list.
pub proof fn lemma_inspector_update_settles(
    ls: Seq<(u64, scene::GameObjectModel)>,
    objs: Seq<scene::GameObjectModel>,
    ch: Option<Seq<u64>>,
    ents: Seq<u64>,
    ls2: Seq<(u64, scene::GameObjectModel)>,
    objs2: Seq<scene::GameObjectModel>,
)
    requires
        ents.len() == objects_to_list(ls, objs, ch).len(),
        forall|l: (u64, scene::GameObjectModel)|
            #![trigger ls2.contains(l)]
            ls2.contains(l) <==> (kept_listings(ls, ch) + new_listings(
                objs,
                objects_to_list(ls, objs, ch),
                ents,
            )).contains(l),
        forall|o: scene::GameObjectModel|
            #![trigger objs2.contains(o)]
            objs2.contains(o) <==> unlisted_objects(ls, objs, ch).contains(o),
    ensures
        removed_listings(ls2, ch) == Seq::<u64>::empty(),
        objects_to_list(ls2, objs2, ch) == Seq::<int>::empty(),
{
    let kept = kept_listings(ls, ch);
    let idxs = objects_to_list(ls, objs, ch);
    let added = new_listings(objs, idxs, ents);
    let all = kept + added;
    let unlisted = unlisted_objects(ls, objs, ch);
    lemma_kept_listings(ls, ch);
    lemma_objects_to_list_children(ls, objs, ch);
    lemma_unlisted_objects(ls, objs, ch);
    assert forall|j: int| 0 <= j < ls2.len() implies is_child(ch, #[trigger] ls2[j].1.ent) by {
        assert(ls2.contains(ls2[j]));
        assert(all.contains(ls2[j]));
        let m = choose|m: int| 0 <= m < all.len() && all[m] == ls2[j];
        if m < kept.len() {
            assert(all[m] == kept[m]);
        } else {
            assert(all[m] == added[m - kept.len()]);
            assert(0 <= idxs[m - kept.len()] < objs.len());
        }
    }
    lemma_removed_empty(ls2, ch);
    assert forall|k: int| 0 <= k < objs2.len() implies has_listing(ls2, #[trigger] objs2[k]) || !is_child(ch, objs2[k].ent) by {
        let o = objs2[k];
        assert(objs2.contains(o));
        assert(unlisted.contains(o));
        let u = choose|u: int| 0 <= u < unlisted.len() && unlisted[u] == o;
        assert(has_listing(ls, unlisted[u]) || !is_child(ch, unlisted[u].ent));
        if has_listing(ls, o) && is_child(ch, o.ent) {
            let j = choose|j: int| 0 <= j < ls.len() && #[trigger] ls[j].1 == o;
            assert(is_child(ch, ls[j].1.ent));
            assert(kept.contains(ls[j]));
            let m = choose|m: int| 0 <= m < kept.len() && kept[m] == ls[j];
            assert(all[m] == kept[m]);
            assert(all.contains(ls[j]));
            assert(ls2.contains(ls[j]));
            let m2 = choose|m2: int| 0 <= m2 < ls2.len() && ls2[m2] == ls[j];
            assert(ls2[m2].1 == o);
        }
    }
    lemma_nothing_to_list(ls2, objs2, ch);
}

/// The listings removed by an update are, in order, exactly those whose
/// object is not a child of the queried object.
pub proof fn lemma_removed_listings_filter(ls: Seq<(u64, scene::GameObjectModel)>, ch: Option<Seq<u64>>)
    ensures
        removed_listings(ls, ch) == ls.filter(
            |l: (u64, scene::GameObjectModel)| !is_child(ch, l.1.ent),
        ).map_values(|l: (u64, scene::GameObjectModel)| l.0),
    decreases ls.len(),
{
    reveal_with_fuel(Seq::filter, 1);
    let pred = |l: (u64, scene::GameObjectModel)| !is_child(ch, l.1.ent);
    let ent = |l: (u64, scene::GameObjectModel)| l.0;
    if ls.len() == 0 {
        assert(ls.filter(pred).map_values(ent) =~= Seq::<u64>::empty());
    } else {
        lemma_removed_listings_filter(ls.drop_last(), ch);
        let sub = ls.drop_last().filter(pred);
        if pred(ls.last()) {
            assert(sub.push(ls.last()).map_values(ent) =~= sub.map_values(ent).push(ls.last().0));
        }
    }
}

/// An object gets a listing exactly when it is a child of the queried object
/// with no equal listing; the indices come in increasing order, so no
/// object gets two.
pub proof fn lemma_objects_to_list_members(
    ls: Seq<(u64, scene::GameObjectModel)>,
    objs: Seq<scene::GameObjectModel>,
    ch: Option<Seq<u64>>,
)
    ensures
        forall|k: int|
            0 <= k < objs.len() ==> (#[trigger] objects_to_list(ls, objs, ch).contains(k) <==> (
            !has_listing(ls, objs[k]) && is_child(ch, objs[k].ent))),
        forall|a: int, b: int|
            0 <= a < b < objects_to_list(ls, objs, ch).len() ==> #[trigger] objects_to_list(
                ls,
                objs,
                ch,
            )[a] < #[trigger] objects_to_list(ls, objs, ch)[b],
        forall|a: int|
            0 <= a < objects_to_list(ls, objs, ch).len() ==> 0 <= #[trigger] objects_to_list(
                ls,
                objs,
                ch,
            )[a] < objs.len(),
    decreases objs.len(),
{
    if objs.len() > 0 {
        let init = objs.drop_last();
        lemma_objects_to_list_members(ls, init, ch);
        let rest = objects_to_list(ls, init, ch);
        let all = objects_to_list(ls, objs, ch);
        let n = objs.len() - 1;
        assert forall|a: int| 0 <= a < all.len() implies 0 <= #[trigger] all[a] < objs.len() by {
            if a < rest.len() {
                assert(all[a] == rest[a]);
            }
        }
        assert forall|a: int, b: int| 0 <= a < b < all.len() implies #[trigger] all[a] < #[trigger] all[b] by {
            assert(all[a] == rest[a]);
            if b < rest.len() {
                assert(all[b] == rest[b]);
            } else {
                assert(rest[a] < init.len());
            }
        }
        assert forall|k: int| 0 <= k < objs.len() implies (#[trigger] all.contains(k) <==> (
        !has_listing(ls, objs[k]) && is_child(ch, objs[k].ent))) by {
            if k < n {
                assert(init[k] == objs[k]);
                if all.contains(k) {
                    let a = choose|a: int| 0 <= a < all.len() && all[a] == k;
                    if a < rest.len() {
                        assert(rest[a] == k);
                        assert(rest.contains(k));
                    }
                }
                if rest.contains(k) {
                    let a = choose|a: int| 0 <= a < rest.len() && rest[a] == k;
                    assert(all[a] == k);
                }
            } else {
                if rest.contains(k) {
                    let a = choose|a: int| 0 <= a < rest.len() && rest[a] == k;
                    assert(rest[a] < init.len());
                }
                if all.contains(k) {
                    let a = choose|a: int| 0 <= a < all.len() && all[a] == k;
                    if a < rest.len() {
                        assert(rest[a] < init.len());
                    }
                }
                if !has_listing(ls, objs[k]) && is_child(ch, objs[k].ent) {
                    assert(all[all.len() - 1] == k);
                }
            }
        }
    }
}

/// The object added by the button that adds objects: a child of the one
/// queried entity, named "YIPPEE", with the drawn id and an empty script,
/// carried by the new entity; with its parent.  There is none unless
/// exactly one entity is queried.
pub fn new_child_object(new_ent: u64, id: u32, queried: &Vec<u64>) -> (r: Option<(GameObject, u64)>)
    ensures
        r is Some <==> queried.len() == 1,
        r matches Some((o, parent)) ==> o@ == (scene::GameObjectModel {
            ent: new_ent,
            name: "YIPPEE"@,
            id,
            code: Seq::<char>::empty(),
        }) && parent == queried@[0],
{
    if queried.len() != 1 {
        return None;
    }
    let o = GameObject { ent: new_ent, name: String::from_str("YIPPEE"), id, code: String::new() };
    Some((o, queried[0]))
}

/// `needle` occurs in `hay`.
pub open spec fn contains_text(hay: Seq<char>, needle: Seq<char>) -> bool {
    exists|i: int| 0 <= i && i + needle.len() <= hay.len() && #[trigger] hay.subrange(i, i + needle.len()) == needle
}

/// The path of the project's own components.
pub open spec fn component_path() -> Seq<char> {
    "murder::components::"@
}

/// The names, in order, that contain the path of the project's components.
pub open spec fn project_components(names: Seq<Seq<char>>) -> Seq<Seq<char>>
    decreases names.len(),
{
    if names.len() == 0 {
        seq![]
    } else {
        let rest = project_components(names.drop_last());
        if contains_text(names.last(), component_path()) {
            rest.push(names.last())
        } else {
            rest
        }
    }
}

fn matches_at(h: &Vec<char>, n: &Vec<char>, i: usize) -> (r: bool)
    requires
        i + n.len() <= h.len(),
    ensures
        r == (h@.subrange(i as int, i + n.len()) == n@),
{
    let mut j: usize = 0;
    while j < n.len()
        invariant
            j <= n.len(),
            i + n.len() <= h.len(),
            forall|k: int| 0 <= k < j ==> h@[i + k] == n@[k],
        decreases n.len() - j,
    {
        if h[i + j] != n[j] {
            assert(h@.subrange(i as int, i + n.len())[j as int] != n@[j as int]);
            return false;
        }
        j = j + 1;
    }
    assert(h@.subrange(i as int, i + n.len()) =~= n@);
    true
}

/// Whether `needle` occurs in `hay`.
pub fn text_contains(hay: &str, needle: &str) -> (r: bool)
    ensures
        r == contains_text(hay@, needle@),
{
    let h = crate::lexer::script_chars(hay);
    let n = crate::lexer::script_chars(needle);
    if n.len() > h.len() {
        return false;
    }
    let last = h.len() - n.len();
    let mut i: usize = 0;
    loop
        invariant
            n.len() <= h.len(),
            last == h.len() - n.len(),
            h@ == hay@,
            n@ == needle@,
            i <= last,
            forall|i2: int| 0 <= i2 < i ==> #[trigger] h@.subrange(i2, i2 + n.len()) != n@,
        decreases last - i,
    {
        if matches_at(&h, &n, i) {
            assert(h@.subrange(i as int, i + n.len()) == n@);
            return true;
        }
        if i == last {
            return false;
        }
        i = i + 1;
    }
}

/// The names of the project's own components among all component names, in order.
pub fn get_all_components(names: &Vec<String>) -> (r: Vec<String>)
    ensures
        crate::vm::lines_view(r@) == project_components(crate::vm::lines_view(names@)),
{
    let ghost nv = crate::vm::lines_view(names@);
    let mut r: Vec<String> = Vec::new();
    let mut j: usize = 0;
    while j < names.len()
        invariant
            j <= names.len(),
            nv == crate::vm::lines_view(names@),
            crate::vm::lines_view(r@) == project_components(nv.take(j as int)),
        decreases names.len() - j,
    {
        assert(nv[j as int] == names@[j as int]@);
        assert(nv.take(j + 1).drop_last() =~= nv.take(j as int));
        let ghost before = r@;
        if text_contains(names[j].as_str(), "murder::components::") {
            r.push(names[j].clone());
            assert(crate::vm::lines_view(r@) =~= crate::vm::lines_view(before).push(nv[j as int]));
        }
        j = j + 1;
    }
    assert(nv.take(names.len() as int) =~= nv);
    r
}

/// While the delete key is held, deletion despawns the object of each
/// selected listing, one command per listing, in order; when it is
/// released, nothing.
pub proof fn lemma_delete_despawns_each_selected(
    delete_pressed: bool,
    selected_objects: Seq<scene::GameObjectModel>,
)
    ensures
        delete_pressed ==> delete_commands(delete_pressed, selected_objects).len()
            == selected_objects.len(),
        delete_pressed ==> forall|k: int|
            0 <= k < selected_objects.len() ==> #[trigger] delete_commands(
                delete_pressed,
                selected_objects,
            )[k] == EditorCommand::Despawn(selected_objects[k].ent),
        !delete_pressed ==> delete_commands(delete_pressed, selected_objects) == Seq::<
            EditorCommand,
        >::empty(),
{
}

/// The project's components are, in order, exactly the names that contain
/// the text `murder::components::`.
pub proof fn lemma_project_components_filter(names: Seq<Seq<char>>)
    ensures
        project_components(names) == names.filter(
            |n: Seq<char>| contains_text(n, "murder::components::"@),
        ),
    decreases names.len(),
{
    reveal_with_fuel(Seq::filter, 1);
    if names.len() > 0 {
        lemma_project_components_filter(names.drop_last());
    }
}

proof fn lemma_removed_without_children(ls: Seq<(u64, scene::GameObjectModel)>)
    ensures
        removed_listings(ls, None) == ls.map_values(|l: (u64, scene::GameObjectModel)| l.0),
    decreases ls.len(),
{
    if ls.len() > 0 {
        lemma_removed_without_children(ls.drop_last());
        assert(ls.map_values(|l: (u64, scene::GameObjectModel)| l.0) =~= ls.drop_last().map_values(
            |l: (u64, scene::GameObjectModel)| l.0,
        ).push(ls.last().0));
    } else {
        assert(ls.map_values(|l: (u64, scene::GameObjectModel)| l.0) =~= Seq::<u64>::empty());
    }
}

/// Only the entities in the queried object's list of children count as its
/// children.  With such a list, the update despawns, in order, exactly the
/// listings whose object's entity is not in it, and lists exactly the
/// objects whose entity is in it and that have no equal listing; with an
/// empty list, every listing goes and nothing is listed.  When the queried
/// object is not known, every listing goes and nothing is listed.
pub proof fn lemma_children_are_the_listed_entities(
    ls: Seq<(u64, scene::GameObjectModel)>,
    objs: Seq<scene::GameObjectModel>,
    c: Seq<u64>,
)
    ensures
        removed_listings(ls, Some(c)) == ls.filter(
            |l: (u64, scene::GameObjectModel)| !c.contains(l.1.ent),
        ).map_values(|l: (u64, scene::GameObjectModel)| l.0),
        forall|k: int|
            0 <= k < objs.len() ==> (#[trigger] objects_to_list(ls, objs, Some(c)).contains(k) <==> (
            !has_listing(ls, objs[k]) && c.contains(objs[k].ent))),
        c.len() == 0 ==> removed_listings(ls, Some(c)) == ls.map_values(
            |l: (u64, scene::GameObjectModel)| l.0,
        ),
        c.len() == 0 ==> objects_to_list(ls, objs, Some(c)) == Seq::<int>::empty(),
        removed_listings(ls, None) == ls.map_values(|l: (u64, scene::GameObjectModel)| l.0),
        objects_to_list(ls, objs, None) == Seq::<int>::empty(),
{
    let p1 = |l: (u64, scene::GameObjectModel)| !is_child(Some(c), l.1.ent);
    let p2 = |l: (u64, scene::GameObjectModel)| !c.contains(l.1.ent);
    assert(p1 =~= p2);
    lemma_removed_listings_filter(ls, Some(c));
    lemma_objects_to_list_members(ls, objs, Some(c));
    lemma_objects_to_list_members(ls, objs, None);
    lemma_removed_without_children(ls);
    let r_none = objects_to_list(ls, objs, None);
    if r_none.len() > 0 {
        assert(r_none.contains(r_none[0]));
    }
    assert(r_none =~= Seq::<int>::empty());
    if c.len() == 0 {
        let r = objects_to_list(ls, objs, Some(c));
        if r.len() > 0 {
            assert(r.contains(r[0]));
            assert(!c.contains(objs[r[0]].ent));
        }
        assert(r =~= Seq::<int>::empty());
        let p3 = |l: (u64, scene::GameObjectModel)| !is_child(None, l.1.ent);
        assert(p1 =~= p3);
        lemma_removed_listings_filter(ls, None);
    }
}

} // verus!
