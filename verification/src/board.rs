//! Walks a board export and works out, for every open card, when it most
//! recently landed in the list it is sitting in.
use vstd::prelude::*;
use vstd::hash_map::StringHashMap;
use crate::json::{Value, Json, field, str_of, array_of, bool_of, json_items};
use crate::text::str_eq;
use crate::time::{iso8601_utc, parse_iso8601_utc};

verus! {

broadcast use vstd::std_specs::vec::group_vec_axioms, vstd::seq::group_seq_axioms, vstd::map::group_map_axioms;

/// A card that is still open, with the list it sits in and how long it has been there.
pub struct StaleCard {
    pub card_name: String,
    pub list_name: String,
    pub entered_at: u64,
    pub stale_seconds: i64,
}

/// The model of a `StaleCard`.
pub struct StaleView {
    pub card_name: Seq<char>,
    pub list_name: Seq<char>,
    pub entered_at: u64,
    pub stale_seconds: i64,
}

impl View for StaleCard {
    type V = StaleView;

    open spec fn view(&self) -> StaleView {
        StaleView {
            card_name: self.card_name@,
            list_name: self.list_name@,
            entered_at: self.entered_at,
            stale_seconds: self.stale_seconds,
        }
    }
}

/// The models of a sequence of cards.
pub open spec fn stale_views(cards: Seq<StaleCard>) -> Seq<StaleView> {
    cards.map_values(|c: StaleCard| c@)
}

/// A member that is a string.
pub open spec fn text_field(j: Json, key: Seq<char>) -> Option<Seq<char>> {
    match field(j, key) {
        Some(v) => str_of(v),
        None => None,
    }
}

/// A member that is an array.
pub open spec fn array_field(j: Json, key: Seq<char>) -> Option<Seq<Json>> {
    match field(j, key) {
        Some(v) => array_of(v),
        None => None,
    }
}

/// A member that is a boolean.
pub open spec fn bool_field(j: Json, key: Seq<char>) -> Option<bool> {
    match field(j, key) {
        Some(v) => bool_of(v),
        None => None,
    }
}

/// The text values of a map of strings.
pub open spec fn texts(m: Map<Seq<char>, String>) -> Map<Seq<char>, Seq<char>> {
    m.map_values(|v: String| v@)
}

/// Whether a card or a list is archived (`closed: true`).
pub open spec fn is_closed(j: Json) -> bool {
    bool_field(j, "closed"@) == Some(true)
}

/// List names by list id: every list that is not archived and has a string
/// `id` and a string `name`; a later list with the same id wins.
pub open spec fn list_names(lists: Seq<Json>) -> Map<Seq<char>, Seq<char>>
    decreases lists.len(),
{
    if lists.len() == 0 {
        Map::empty()
    } else {
        let m = list_names(lists.drop_last());
        let l = lists.last();
        if is_closed(l) {
            m
        } else {
            match (text_field(l, "id"@), text_field(l, "name"@)) {
                (Some(id), Some(name)) => m.insert(id, name),
                _ => m,
            }
        }
    }
}

/// The ids of the archived lists.
pub open spec fn archived_lists(lists: Seq<Json>) -> Set<Seq<char>>
    decreases lists.len(),
{
    if lists.len() == 0 {
        Set::empty()
    } else {
        let a = archived_lists(lists.drop_last());
        let l = lists.last();
        if is_closed(l) && text_field(l, "id"@) is Some {
            a.insert(text_field(l, "id"@)->Some_0)
        } else {
            a
        }
    }
}

/// Error: the export has no top-level `lists` array.
pub open spec fn msg_no_lists() -> Seq<char> {
    "export is missing a top-level \"lists\" array"@
}

/// Error: the export has no top-level `cards` array.
pub open spec fn msg_no_cards() -> Seq<char> {
    "export is missing a top-level \"cards\" array"@
}

/// What the cards of an export say: the ids of the open cards in order (an id
/// again for each repeat), and by id the name, the list and the time of last
/// activity; a later card with the same id wins, and an activity time that does
/// not parse leaves an earlier one in place.
pub struct Tally {
    pub order: Seq<Seq<char>>,
    pub names: Map<Seq<char>, Seq<char>>,
    pub current: Map<Seq<char>, Seq<char>>,
    pub activity: Map<Seq<char>, u64>,
}

/// Whether a card counts: it is open, has a string id and a string list id, and
/// its list is not archived.
pub open spec fn counted(card: Json, archived: Set<Seq<char>>) -> bool {
    &&& !is_closed(card)
    &&& text_field(card, "id"@) is Some
    &&& text_field(card, "idList"@) is Some
    &&& !archived.contains(text_field(card, "idList"@)->Some_0)
}

/// What the first cards say, card by card.
pub open spec fn tally(cards: Seq<Json>, archived: Set<Seq<char>>) -> Tally
    decreases cards.len(),
{
    if cards.len() == 0 {
        Tally { order: Seq::empty(), names: Map::empty(), current: Map::empty(), activity: Map::empty() }
    } else {
        let t = tally(cards.drop_last(), archived);
        let card = cards.last();
        if !counted(card, archived) {
            t
        } else {
            let id = text_field(card, "id"@)->Some_0;
            let list = text_field(card, "idList"@)->Some_0;
            let name = match text_field(card, "name"@) {
                Some(n) => n,
                None => "(untitled card)"@,
            };
            let activity = match text_field(card, "dateLastActivity"@) {
                Some(d) => match iso8601_utc(d) {
                    Some(ts) => t.activity.insert(id, ts),
                    None => t.activity,
                },
                None => t.activity,
            };
            Tally {
                order: t.order.push(id),
                names: t.names.insert(id, name),
                current: t.current.insert(id, list),
                activity,
            }
        }
    }
}

/// The move an action records into a card's current list: an `updateCard`
/// action whose `data.listAfter.id` is the list that `data.card.id` sits in now,
/// with a `date` that parses.
pub open spec fn move_into_current(action: Json, current: Map<Seq<char>, Seq<char>>) -> Option<(Seq<char>, u64)> {
    if text_field(action, "type"@) != Some("updateCard"@) {
        None
    } else {
        match field(action, "data"@) {
            None => None,
            Some(data) => {
                let card_id = match field(data, "card"@) {
                    Some(c) => text_field(c, "id"@),
                    None => None,
                };
                let after = match field(data, "listAfter"@) {
                    Some(l) => text_field(l, "id"@),
                    None => None,
                };
                match (card_id, after) {
                    (Some(cid), Some(lid)) => if current.contains_key(cid) && current[cid] == lid {
                        match text_field(action, "date"@) {
                            Some(d) => match iso8601_utc(d) {
                                Some(ts) => Some((cid, ts)),
                                None => None,
                            },
                            None => None,
                        }
                    } else {
                        None
                    },
                    _ => None,
                }
            },
        }
    }
}

/// By card id, the latest time a recorded move put the card into its current list.
pub open spec fn entered(actions: Seq<Json>, current: Map<Seq<char>, Seq<char>>) -> Map<Seq<char>, u64>
    decreases actions.len(),
{
    if actions.len() == 0 {
        Map::empty()
    } else {
        let m = entered(actions.drop_last(), current);
        match move_into_current(actions.last(), current) {
            Some((id, ts)) => m.insert(
                id,
                if m.contains_key(id) && m[id] >= ts {
                    m[id]
                } else {
                    ts
                },
            ),
            None => m,
        }
    }
}

/// When a card entered its list: the latest recorded move, else its last activity.
pub open spec fn entry_time(id: Seq<char>, moved: Map<Seq<char>, u64>, t: Tally) -> Option<u64> {
    if moved.contains_key(id) {
        Some(moved[id])
    } else if t.activity.contains_key(id) {
        Some(t.activity[id])
    } else {
        None
    }
}

/// `now - when` in 64-bit arithmetic, wrapping at 64 bits.
pub open spec fn stale_for(now: u64, when: u64) -> i64 {
    ((now as i64) - (when as i64)) as i64
}

/// The rows reported for the ids `order`: one per id with an entry time; a
/// repeated id reports an empty card name, the name having been used already.
pub open spec fn rows(
    order: Seq<Seq<char>>,
    t: Tally,
    lists: Map<Seq<char>, Seq<char>>,
    moved: Map<Seq<char>, u64>,
    now: u64,
) -> Seq<StaleView>
    decreases order.len(),
{
    if order.len() == 0 {
        Seq::empty()
    } else {
        let prev = rows(order.drop_last(), t, lists, moved, now);
        let id = order.last();
        match entry_time(id, moved, t) {
            None => prev,
            Some(w) => prev.push(
                StaleView {
                    card_name: if order.drop_last().contains(id) {
                        Seq::empty()
                    } else {
                        t.names[id]
                    },
                    list_name: if lists.contains_key(t.current[id]) {
                        lists[t.current[id]]
                    } else {
                        "(unknown list)"@
                    },
                    entered_at: w,
                    stale_seconds: stale_for(now, w),
                },
            ),
        }
    }
}

/// The actions of an export: its top-level `actions` array, or none.
pub open spec fn actions_of(root: Json) -> Seq<Json> {
    match array_field(root, "actions"@) {
        Some(a) => a,
        None => Seq::empty(),
    }
}

/// The stale-card report of an export at time `now`.
pub open spec fn stale_report(root: Json, now: u64) -> Result<Seq<StaleView>, Seq<char>> {
    match array_field(root, "lists"@) {
        None => Err(msg_no_lists()),
        Some(lists) => match array_field(root, "cards"@) {
            None => Err(msg_no_cards()),
            Some(cards) => {
                let t = tally(cards, archived_lists(lists));
                let moved = entered(actions_of(root), t.current);
                Ok(rows(t.order, t, list_names(lists), moved, now))
            },
        },
    }
}

/// The text of a value, if it is present and a string.
fn text_of<'a>(v: Option<&'a Value>) -> (r: Option<&'a str>)
    ensures
        match v {
            Some(x) => match str_of(x@) {
                Some(t) => r matches Some(s) && s@ == t,
                None => r is None,
            },
            None => r is None,
        },
{
    match v {
        Some(x) => x.as_str(),
        None => None,
    }
}

/// The elements of a value, if it is present and an array.
fn array_at<'a>(v: Option<&'a Value>) -> (r: Option<&'a Vec<Value>>)
    ensures
        match v {
            Some(x) => match array_of(x@) {
                Some(items) => r matches Some(a) && json_items(a@) == items,
                None => r is None,
            },
            None => r is None,
        },
{
    match v {
        Some(x) => x.as_array(),
        None => None,
    }
}

/// The names of the open lists by id, and the ids of the archived lists.
fn collect_lists(root: &Value) -> (r: Result<(StringHashMap<String>, StringHashMap<bool>), String>)
    ensures
        match array_field(root@, "lists"@) {
            Some(lists) => r matches Ok((m, a)) && texts(m@) == list_names(lists) && a@.dom()
                == archived_lists(lists),
            None => r matches Err(e) && e@ == msg_no_lists(),
        },
{
    let lists = match array_at(root.get("lists")) {
        Some(l) => l,
        None => {
            return Err(String::from_str("export is missing a top-level \"lists\" array"));
        },
    };
    let ghost js = json_items(lists@);
    let mut map: StringHashMap<String> = StringHashMap::new();
    let mut archived: StringHashMap<bool> = StringHashMap::new();
    assert(texts(map@) =~= list_names(js.take(0)));
    assert(archived@.dom() =~= archived_lists(js.take(0)));
    let mut i: usize = 0;
    while i < lists.len()
        invariant
            0 <= i <= lists.len(),
            js == json_items(lists@),
            texts(map@) == list_names(js.take(i as int)),
            archived@.dom() == archived_lists(js.take(i as int)),
        decreases lists.len() - i,
    {
        let list = &lists[i];
        assert(js.take(i + 1).drop_last() =~= js.take(i as int));
        assert(js[i as int] == list@);
        let closed = match list.get("closed") {
            Some(v) => match v.as_bool() {
                Some(b) => b,
                None => false,
            },
            None => false,
        };
        let id = text_of(list.get("id"));
        if closed {
            match id {
                Some(id) => {
                    let ghost before = archived@;
                    archived.insert(String::from_str(id), true);
                    assert(archived@.dom() =~= before.dom().insert(id@));
                },
                None => {},
            }
        } else {
            let name = text_of(list.get("name"));
            match (id, name) {
                (Some(id), Some(name)) => {
                    let ghost before = map@;
                    map.insert(String::from_str(id), String::from_str(name));
                    assert(texts(map@) =~= texts(before).insert(id@, name@));
                },
                _ => {},
            }
        }
        i = i + 1;
    }
    assert(js.take(lists.len() as int) =~= js);
    Ok((map, archived))
}

/// The texts of a sequence of strings.
pub open spec fn ids(v: Seq<String>) -> Seq<Seq<char>> {
    v.map_values(|s: String| s@)
}

/// Every id in the order has a list and a name.
proof fn lemma_tally(cards: Seq<Json>, archived: Set<Seq<char>>)
    ensures
        forall|k: int|
            0 <= k < tally(cards, archived).order.len() ==> tally(cards, archived).current.contains_key(
                #[trigger] tally(cards, archived).order[k],
            ) && tally(cards, archived).names.contains_key(tally(cards, archived).order[k]),
    decreases cards.len(),
{
    if cards.len() > 0 {
        lemma_tally(cards.drop_last(), archived);
        let t0 = tally(cards.drop_last(), archived);
        let t = tally(cards, archived);
        if counted(cards.last(), archived) {
            assert forall|k: int| 0 <= k < t.order.len() implies t.current.contains_key(
                #[trigger] t.order[k],
            ) && t.names.contains_key(t.order[k]) by {
                if k < t0.order.len() {
                    assert(t.order[k] == t0.order[k]);
                }
            }
        }
    }
}

/// For every open card of a board export, the list it sits in and how long it
/// has been there at time `now` (seconds since the Unix epoch), in card order.
/// The time it entered the list is the latest `updateCard` action that moved it
/// into that list, else the card's `dateLastActivity`; a card with neither is
/// left out, and so are archived cards and the cards of archived lists.
pub fn find_stale_cards(root: &Value, now: u64) -> (r: Result<Vec<StaleCard>, String>)
    ensures
        match stale_report(root@, now) {
            Ok(rs) => r matches Ok(v) && stale_views(v@) == rs,
            Err(m) => r matches Err(e) && e@ == m,
        },
{
    let (lists_by_id, archived) = collect_lists(root)?;
    let ghost arch = archived@.dom();
    let cards = match array_at(root.get("cards")) {
        Some(c) => c,
        None => {
            return Err(String::from_str("export is missing a top-level \"cards\" array"));
        },
    };
    let ghost cs = json_items(cards@);
    let mut current_list: StringHashMap<String> = StringHashMap::new();
    let mut last_activity: StringHashMap<u64> = StringHashMap::new();
    let mut names: StringHashMap<String> = StringHashMap::new();
    let mut order: Vec<String> = Vec::new();
    assert(ids(order@) =~= tally(cs.take(0), arch).order);
    assert(texts(names@) =~= tally(cs.take(0), arch).names);
    assert(texts(current_list@) =~= tally(cs.take(0), arch).current);
    assert(last_activity@ =~= tally(cs.take(0), arch).activity);
    let mut i: usize = 0;
    while i < cards.len()
        invariant
            0 <= i <= cards.len(),
            cs == json_items(cards@),
            arch == archived@.dom(),
            ids(order@) == tally(cs.take(i as int), arch).order,
            texts(names@) == tally(cs.take(i as int), arch).names,
            texts(current_list@) == tally(cs.take(i as int), arch).current,
            last_activity@ == tally(cs.take(i as int), arch).activity,
        decreases cards.len() - i,
    {
        let card = &cards[i];
        assert(cs.take(i + 1).drop_last() =~= cs.take(i as int));
        assert(cs[i as int] == card@);
        let closed = match card.get("closed") {
            Some(v) => match v.as_bool() {
                Some(b) => b,
                None => false,
            },
            None => false,
        };
        if !closed {
            match (text_of(card.get("id")), text_of(card.get("idList"))) {
                (Some(id), Some(list_id)) => if !archived.contains_key(list_id) {
                    let name = match text_of(card.get("name")) {
                        Some(n) => String::from_str(n),
                        None => String::from_str("(untitled card)"),
                    };
                    match text_of(card.get("dateLastActivity")) {
                        Some(d) => match parse_iso8601_utc(d) {
                            Some(ts) => {
                                last_activity.insert(String::from_str(id), ts);
                            },
                            None => {},
                        },
                        None => {},
                    }
                    let ghost names0 = names@;
                    let ghost current0 = current_list@;
                    let ghost order0 = order@;
                    order.push(String::from_str(id));
                    names.insert(String::from_str(id), name);
                    current_list.insert(String::from_str(id), String::from_str(list_id));
                    assert(ids(order@) =~= ids(order0).push(id@));
                    assert(texts(names@) =~= texts(names0).insert(id@, name@));
                    assert(texts(current_list@) =~= texts(current0).insert(id@, list_id@));
                },
                _ => {},
            }
        }
        i = i + 1;
    }
    assert(cs.take(cards.len() as int) =~= cs);
    let ghost t = tally(cs, arch);
    let ghost current = texts(current_list@);
    let mut entered_at: StringHashMap<u64> = StringHashMap::new();
    let ghost acts = match array_field(root@, "actions"@) {
        Some(a) => a,
        None => Seq::<Json>::empty(),
    };
    match array_at(root.get("actions")) {
        Some(actions) => {
            assert(entered_at@ =~= entered(acts.take(0), current));
            let mut j: usize = 0;
            while j < actions.len()
                invariant
                    0 <= j <= actions.len(),
                    acts == json_items(actions@),
                    current == texts(current_list@),
                    entered_at@ == entered(acts.take(j as int), current),
                decreases actions.len() - j,
            {
                let action = &actions[j];
                assert(acts.take(j + 1).drop_last() =~= acts.take(j as int));
                assert(acts[j as int] == action@);
                let ghost before = entered_at@;
                let is_update = match text_of(action.get("type")) {
                    Some(ty) => str_eq(ty, "updateCard"),
                    None => false,
                };
                if is_update {
                    match action.get("data") {
                        Some(data) => {
                            let card_id = match data.get("card") {
                                Some(c) => text_of(c.get("id")),
                                None => None,
                            };
                            let list_after = match data.get("listAfter") {
                                Some(l) => text_of(l.get("id")),
                                None => None,
                            };
                            match (card_id, list_after) {
                                (Some(card_id), Some(list_after)) => {
                                    let in_current = match current_list.get(card_id) {
                                        Some(target) => str_eq(target.as_str(), list_after),
                                        None => false,
                                    };
                                    if in_current {
                                        let date = match text_of(action.get("date")) {
                                            Some(d) => parse_iso8601_utc(d),
                                            None => None,
                                        };
                                        match date {
                                            Some(date) => {
                                                match entered_at.get(card_id) {
                                                    Some(existing) => {
                                                        if date > *existing {
                                                            entered_at.insert(String::from_str(card_id), date);
                                                        } else {
                                                            assert(before.insert(card_id@, before[card_id@]) =~= before);
                                                        }
                                                    },
                                                    None => {
                                                        entered_at.insert(String::from_str(card_id), date);
                                                    },
                                                }
                                            },
                                            None => {},
                                        }
                                    }
                                },
                                _ => {},
                            }
                        },
                        None => {},
                    }
                }
                j = j + 1;
            }
            assert(acts.take(actions.len() as int) =~= acts);
        },
        None => {},
    }
    let ghost moved = entered_at@;
    let ghost o = t.order;
    let ghost lists = texts(lists_by_id@);
    proof {
        lemma_tally(cs, arch);
    }
    let mut result: Vec<StaleCard> = Vec::new();
    assert(stale_views(result@) =~= rows(o.take(0), t, lists, moved, now));
    let mut k: usize = 0;
    while k < order.len()
        invariant
            0 <= k <= order.len(),
            ids(order@) == o,
            t == tally(cs, arch),
            forall|x: int| 0 <= x < o.len() ==> t.current.contains_key(#[trigger] o[x]) && t.names.contains_key(o[x]),
            texts(current_list@) == t.current,
            last_activity@ == t.activity,
            entered_at@ == moved,
            texts(lists_by_id@) == lists,
            forall|x: Seq<char>|
                names@.contains_key(x) <==> (t.names.contains_key(x) && !(o.take(k as int).contains(x)
                    && entry_time(x, moved, t) is Some)),
            forall|x: Seq<char>| #[trigger] names@.contains_key(x) ==> names@[x]@ == t.names[x],
            stale_views(result@) == rows(o.take(k as int), t, lists, moved, now),
        decreases order.len() - k,
    {
        let id = &order[k];
        let ghost idv = id@;
        assert(o[k as int] == idv);
        assert(o.take(k + 1).drop_last() =~= o.take(k as int));
        assert(o.take(k + 1).last() == idv);
        let list_name = match current_list.get(id.as_str()) {
            Some(list_id) => match lists_by_id.get(list_id.as_str()) {
                Some(n) => n.clone(),
                None => String::from_str("(unknown list)"),
            },
            None => {
                proof {
                    assert(t.current.contains_key(o[k as int]));
                    assert(texts(current_list@).contains_key(idv));
                }
                String::from_str("(unknown list)")
            },
        };
        let when = match entered_at.get(id.as_str()) {
            Some(w) => Some(*w),
            None => match last_activity.get(id.as_str()) {
                Some(w) => Some(*w),
                None => None,
            },
        };
        let ghost result0 = stale_views(result@);
        let ghost names0 = names@;
        match when {
            Some(w) => {
                let card_name = match names.get(id.as_str()) {
                    Some(n) => n.clone(),
                    None => String::new(),
                };
                names.remove(id.as_str());
                let now_i = #[verifier::truncate] (now as i64);
                let w_i = #[verifier::truncate] (w as i64);
                let diff: i128 = now_i as i128 - w_i as i128;
                let stale = #[verifier::truncate] (diff as i64);
                let row = StaleCard { card_name, list_name, entered_at: w, stale_seconds: stale };
                result.push(row);
                proof {
                    assert(stale_views(result@) =~= result0.push(row@));
                    assert forall|x: Seq<char>|
                        names@.contains_key(x) <==> (t.names.contains_key(x) && !(o.take(k + 1).contains(x)
                            && entry_time(x, moved, t) is Some)) by {
                        if x != idv {
                            lemma_take_one_more(o, k as int, x);
                        }
                    }
                }
            },
            None => {
                proof {
                    assert forall|x: Seq<char>|
                        names@.contains_key(x) <==> (t.names.contains_key(x) && !(o.take(k + 1).contains(x)
                            && entry_time(x, moved, t) is Some)) by {
                        if x != idv {
                            lemma_take_one_more(o, k as int, x);
                        }
                    }
                }
            },
        }
        k = k + 1;
    }
    assert(o.take(order.len() as int) =~= o);
    Ok(result)
}

/// One more element taken from the front of `o` adds only that element.
proof fn lemma_take_one_more(o: Seq<Seq<char>>, k: int, x: Seq<char>)
    requires
        0 <= k < o.len(),
        x != o[k],
    ensures
        o.take(k + 1).contains(x) <==> o.take(k).contains(x),
{
    if o.take(k + 1).contains(x) {
        let y = choose|y: int| 0 <= y < k + 1 && #[trigger] o.take(k + 1)[y] == x;
        assert(o.take(k)[y] == x);
    }
    if o.take(k).contains(x) {
        let y = choose|y: int| 0 <= y < k && #[trigger] o.take(k)[y] == x;
        assert(o.take(k + 1)[y] == x);
    }
}

/// Row by row: the staleness formula, and what the clock leaves unchanged.
proof fn lemma_rows_stale(
    order: Seq<Seq<char>>,
    t: Tally,
    lists: Map<Seq<char>, Seq<char>>,
    moved: Map<Seq<char>, u64>,
    now: u64,
    now2: u64,
)
    ensures
        rows(order, t, lists, moved, now).len() == rows(order, t, lists, moved, now2).len(),
        forall|i: int|
            0 <= i < rows(order, t, lists, moved, now).len() ==> {
                let a = #[trigger] rows(order, t, lists, moved, now)[i];
                let b = rows(order, t, lists, moved, now2)[i];
                &&& a.stale_seconds == stale_for(now, a.entered_at)
                &&& a.card_name == b.card_name
                &&& a.list_name == b.list_name
                &&& a.entered_at == b.entered_at
            },
    decreases order.len(),
{
    if order.len() > 0 {
        lemma_rows_stale(order.drop_last(), t, lists, moved, now, now2);
    }
}

/// Every reported card is as stale as the time between `now` and the time it
/// entered its list (in 64-bit arithmetic); moving the clock changes nothing
/// else in the report.
pub proof fn law_staleness_is_time_in_list(root: Json, now: u64, later: u64)
    ensures
        stale_report(root, now) is Ok <==> stale_report(root, later) is Ok,
        stale_report(root, now) matches Ok(rs) ==> {
            let rs2 = stale_report(root, later)->Ok_0;
            &&& rs.len() == rs2.len()
            &&& forall|i: int|
                0 <= i < rs.len() ==> {
                    let a = #[trigger] rs[i];
                    let b = rs2[i];
                    &&& a.stale_seconds == stale_for(now, a.entered_at)
                    &&& a.card_name == b.card_name
                    &&& a.list_name == b.list_name
                    &&& a.entered_at == b.entered_at
                }
        },
{
    if let Some(lists) = array_field(root, "lists"@) {
        if let Some(cards) = array_field(root, "cards"@) {
            let t = tally(cards, archived_lists(lists));
            let moved = entered(actions_of(root), t.current);
            lemma_rows_stale(t.order, t, list_names(lists), moved, now, later);
        }
    }
}

/// A card that does not count leaves what the cards say unchanged, wherever it
/// stands among them.
proof fn lemma_tally_insert(cards: Seq<Json>, i: int, card: Json, archived: Set<Seq<char>>)
    requires
        0 <= i <= cards.len(),
        !counted(card, archived),
    ensures
        tally(cards.insert(i, card), archived) == tally(cards, archived),
    decreases cards.len(),
{
    if i == cards.len() {
        assert(cards.insert(i, card).drop_last() =~= cards);
    } else {
        lemma_tally_insert(cards.drop_last(), i, card, archived);
        assert(cards.insert(i, card).drop_last() =~= cards.drop_last().insert(i, card));
        assert(cards.insert(i, card).last() == cards.last());
    }
}

/// An action that records no move into a card's current list leaves the move
/// times unchanged, wherever it stands among the actions.
proof fn lemma_entered_insert(actions: Seq<Json>, i: int, a: Json, current: Map<Seq<char>, Seq<char>>)
    requires
        0 <= i <= actions.len(),
        move_into_current(a, current) is None,
    ensures
        entered(actions.insert(i, a), current) == entered(actions, current),
    decreases actions.len(),
{
    if i == actions.len() {
        assert(actions.insert(i, a).drop_last() =~= actions);
    } else {
        lemma_entered_insert(actions.drop_last(), i, a, current);
        assert(actions.insert(i, a).drop_last() =~= actions.drop_last().insert(i, a));
        assert(actions.insert(i, a).last() == actions.last());
    }
}

/// Only `closed: true` archives: a card or list is archived exactly when its
/// `closed` member is the boolean `true`; `false`, another value or no member
/// leaves it open.
pub proof fn law_only_closed_true_archives(j: Json)
    ensures
        is_closed(j) <==> field(j, "closed"@) == Some(Json::Bool(true)),
{
}

/// `b` is `a` with a `closed: false` member that `a` lacks, and every other member alike.
pub open spec fn adds_closed_false(a: Json, b: Json) -> bool {
    &&& field(a, "closed"@) is None
    &&& field(b, "closed"@) == Some(Json::Bool(false))
    &&& forall|k: Seq<char>| k != "closed"@ ==> #[trigger] field(b, k) == field(a, k)
}

/// Items alike but for a `closed: false` member are both open, with the same members.
proof fn lemma_adds_closed_false(a: Json, b: Json)
    requires
        adds_closed_false(a, b),
    ensures
        !is_closed(a) && !is_closed(b),
        text_field(b, "id"@) == text_field(a, "id"@),
        text_field(b, "idList"@) == text_field(a, "idList"@),
        text_field(b, "name"@) == text_field(a, "name"@),
        text_field(b, "dateLastActivity"@) == text_field(a, "dateLastActivity"@),
{
    reveal_strlit("closed");
    reveal_strlit("id");
    reveal_strlit("idList");
    reveal_strlit("name");
    reveal_strlit("dateLastActivity");
    assert("id"@.len() == 2);
    assert("closed"@.len() == 6);
    assert("name"@.len() == 4);
    assert("dateLastActivity"@.len() == 16);
    assert("id"@ != "closed"@);
    assert("idList"@[0] != "closed"@[0]);
    assert("idList"@ != "closed"@);
    assert("name"@ != "closed"@);
    assert("dateLastActivity"@ != "closed"@);
    assert(field(b, "id"@) == field(a, "id"@));
    assert(field(b, "idList"@) == field(a, "idList"@));
    assert(field(b, "name"@) == field(a, "name"@));
    assert(field(b, "dateLastActivity"@) == field(a, "dateLastActivity"@));
}

/// A card given a `closed: false` member says the same to the tally.
proof fn lemma_tally_closed_false(cards: Seq<Json>, i: int, b: Json, archived: Set<Seq<char>>)
    requires
        0 <= i < cards.len(),
        adds_closed_false(cards[i], b),
    ensures
        tally(cards.update(i, b), archived) == tally(cards, archived),
    decreases cards.len(),
{
    let u = cards.update(i, b);
    lemma_adds_closed_false(cards[i], b);
    if i == cards.len() - 1 {
        assert(u.drop_last() =~= cards.drop_last());
        assert(u.last() == b);
    } else {
        lemma_tally_closed_false(cards.drop_last(), i, b, archived);
        assert(u.drop_last() =~= cards.drop_last().update(i, b));
        assert(u.last() == cards.last());
    }
}

/// A list given a `closed: false` member leaves the list names and the archived
/// lists unchanged.
proof fn lemma_lists_closed_false(lists: Seq<Json>, i: int, b: Json)
    requires
        0 <= i < lists.len(),
        adds_closed_false(lists[i], b),
    ensures
        list_names(lists.update(i, b)) == list_names(lists),
        archived_lists(lists.update(i, b)) == archived_lists(lists),
    decreases lists.len(),
{
    let u = lists.update(i, b);
    lemma_adds_closed_false(lists[i], b);
    if i == lists.len() - 1 {
        assert(u.drop_last() =~= lists.drop_last());
        assert(u.last() == b);
    } else {
        lemma_lists_closed_false(lists.drop_last(), i, b);
        assert(u.drop_last() =~= lists.drop_last().update(i, b));
        assert(u.last() == lists.last());
    }
}

/// `closed: false` is no archiving: an export in which one card carries an extra
/// `closed: false` member, all else alike, reports the same as without it.
pub proof fn law_card_closed_false_counts_as_open(root: Json, root2: Json, i: int, card2: Json, now: u64)
    requires
        array_field(root2, "lists"@) == array_field(root, "lists"@),
        actions_of(root2) == actions_of(root),
        array_field(root, "cards"@) matches Some(cs) && 0 <= i < cs.len() && adds_closed_false(cs[i], card2)
            && array_field(root2, "cards"@) == Some(cs.update(i, card2)),
    ensures
        stale_report(root2, now) == stale_report(root, now),
{
    if let Some(lists) = array_field(root, "lists"@) {
        let cs = array_field(root, "cards"@)->Some_0;
        lemma_tally_closed_false(cs, i, card2, archived_lists(lists));
    }
}

/// `closed: false` is no archiving for lists either: an export in which one list
/// carries an extra `closed: false` member, all else alike, reports the same.
pub proof fn law_list_closed_false_counts_as_open(root: Json, root2: Json, i: int, list2: Json, now: u64)
    requires
        array_field(root2, "cards"@) == array_field(root, "cards"@),
        actions_of(root2) == actions_of(root),
        array_field(root, "lists"@) matches Some(ls) && 0 <= i < ls.len() && adds_closed_false(ls[i], list2)
            && array_field(root2, "lists"@) == Some(ls.update(i, list2)),
    ensures
        stale_report(root2, now) == stale_report(root, now),
{
    let ls = array_field(root, "lists"@)->Some_0;
    lemma_lists_closed_false(ls, i, list2);
}

/// An archived card never changes the report: an export with one more card
/// marked `closed: true`, anywhere among its cards, reports the same.
pub proof fn law_closed_cards_are_skipped(root: Json, root2: Json, i: int, card: Json, now: u64)
    requires
        array_field(root2, "lists"@) == array_field(root, "lists"@),
        actions_of(root2) == actions_of(root),
        array_field(root, "cards"@) matches Some(cs) && 0 <= i <= cs.len()
            && array_field(root2, "cards"@) == Some(cs.insert(i, card)),
        is_closed(card),
    ensures
        stale_report(root2, now) == stale_report(root, now),
{
    if let Some(lists) = array_field(root, "lists"@) {
        let cs = array_field(root, "cards"@)->Some_0;
        lemma_tally_insert(cs, i, card, archived_lists(lists));
    }
}

/// A card of an archived list never changes the report either: an export with
/// one more card whose `idList` names an archived list, anywhere among its
/// cards, reports the same.
pub proof fn law_cards_of_archived_lists_are_skipped(root: Json, root2: Json, i: int, card: Json, now: u64)
    requires
        array_field(root2, "lists"@) == array_field(root, "lists"@),
        actions_of(root2) == actions_of(root),
        array_field(root, "cards"@) matches Some(cs) && 0 <= i <= cs.len()
            && array_field(root2, "cards"@) == Some(cs.insert(i, card)),
        array_field(root, "lists"@) matches Some(ls) && text_field(card, "idList"@) matches Some(l)
            && archived_lists(ls).contains(l),
    ensures
        stale_report(root2, now) == stale_report(root, now),
{
    let lists = array_field(root, "lists"@)->Some_0;
    let cs = array_field(root, "cards"@)->Some_0;
    lemma_tally_insert(cs, i, card, archived_lists(lists));
}

/// Only moves into a card's current list count: an export with one more action,
/// anywhere among its actions, that is no `updateCard`, lacks a card id, a
/// `listAfter` id or a date that parses, or moves a card into a list other than
/// the one it sits in now (or a card that does not count), reports the same.
pub proof fn law_other_actions_are_ignored(root: Json, root2: Json, i: int, a: Json, now: u64)
    requires
        array_field(root2, "lists"@) == array_field(root, "lists"@),
        array_field(root2, "cards"@) == array_field(root, "cards"@),
        0 <= i <= actions_of(root).len(),
        actions_of(root2) == actions_of(root).insert(i, a),
        (array_field(root, "lists"@) is Some && array_field(root, "cards"@) is Some) ==> move_into_current(
            a,
            tally(array_field(root, "cards"@)->Some_0, archived_lists(array_field(root, "lists"@)->Some_0)).current,
        ) is None,
    ensures
        stale_report(root2, now) == stale_report(root, now),
{
    if let Some(lists) = array_field(root, "lists"@) {
        if let Some(cs) = array_field(root, "cards"@) {
            lemma_entered_insert(actions_of(root), i, a, tally(cs, archived_lists(lists)).current);
        }
    }
}

} // verus!
