//! Directory names for worlds.

use crate::chars::{control, is_control, is_white, white};
use crate::world::save::{is_save, parse_world_save, read_save, SaveView, WorldSave};
use vstd::prelude::*;
use vstd::seq_lib::to_multiset_insert;
use vstd::set_lib::{lemma_int_range, lemma_len_subset, set_int_range};
use vstd::string::StringSliceAdditionalSpecFns;
use vstd::utf8::encode_utf8;

verus! {

/// Whether a character separates the parts of a name: path separators, colons and white
/// space.
pub open spec fn separates(c: char) -> bool {
    c == '/' || c == '\\' || c == ':' || is_white(c)
}

/// A name as it is put together: the characters so far, and whether a separator has
/// come since. Control characters are left out.
pub open spec fn joined(name: Seq<char>) -> (Seq<char>, bool)
    decreases name.len(),
{
    if name.len() == 0 {
        (Seq::empty(), false)
    } else {
        let (out, pending) = joined(name.drop_last());
        let c = name.last();
        if is_control(c) {
            (out, pending)
        } else if separates(c) {
            (out, pending || out.len() > 0)
        } else if pending {
            (out.push('_').push(c), false)
        } else {
            (out.push(c), false)
        }
    }
}

/// A name without the underscores at its end.
pub open spec fn trimmed(name: Seq<char>) -> Seq<char>
    decreases name.len(),
{
    if name.len() > 0 && name.last() == '_' {
        trimmed(name.drop_last())
    } else {
        name
    }
}

/// The name of a world that has none.
pub open spec fn fallback() -> Seq<char> {
    seq!['w', 'o', 'r', 'l', 'd']
}

/// The directory name of a world: the parts of its name joined by underscores, or
/// `world` where nothing is left.
pub open spec fn dir_name(name: Seq<char>) -> Seq<char> {
    let out = trimmed(joined(name).0);
    if out.len() == 0 {
        fallback()
    } else {
        out
    }
}

/// `String::from_iter` on characters: the text made of them.
#[verifier::external_body]
pub(crate) fn text_from_chars(chars: Vec<char>) -> (r: String)
    ensures
        r@ == chars@,
{
    String::from_iter(chars)
}

/// The directory name of a world: without control characters, path separators, colons
/// and white space, with underscores for the gaps between parts; `world` where nothing
/// is left.
pub fn sanitize_dir_name(name: &str) -> (r: String)
    ensures
        r@ == dir_name(name@),
{
    let mut out: Vec<char> = Vec::new();
    let mut pending = false;
    assert(name@.take(0) =~= Seq::<char>::empty());
    for c in it: name.chars()
        invariant
            it.seq() == name@,
            (out@, pending) == joined(name@.take(it.index() as int)),
    {
        proof {
            let done = name@.take(it.index() + 1);
            assert(done.drop_last() =~= name@.take(it.index() as int));
            assert(done.last() == c);
        }
        let removed = control(c);
        if !removed && (c == '/' || c == '\\' || c == ':' || white(c)) {
            if out.len() > 0 {
                pending = true;
            }
        } else if !removed {
            if pending {
                out.push('_');
                pending = false;
            }
            out.push(c);
        }
    }
    assert(name@.take(name@.len() as int) =~= name@);
    let ghost whole = out@;
    while out.len() > 0 && out[out.len() - 1] == '_'
        invariant
            trimmed(out@) == trimmed(whole),
        decreases out.len(),
    {
        out.pop();
    }
    if out.len() == 0 {
        out = vec!['w', 'o', 'r', 'l', 'd'];
        assert(out@ =~= fallback());
    }
    text_from_chars(out)
}

/// The digits of a number.
pub open spec fn decimal(n: nat) -> Seq<char>
    decreases n,
{
    if n < 10 {
        seq![digit(n)]
    } else {
        decimal(n / 10).push(digit(n % 10))
    }
}

/// The character of a digit.
pub open spec fn digit(n: nat) -> char {
    (48 + n) as char
}

/// The directory name for the `suffix`-th world of a name.
pub open spec fn numbered(base: Seq<char>, suffix: nat) -> Seq<char> {
    base + seq![' ', '('] + decimal(suffix) + seq![')']
}

/// Appends the digits of a number.
pub(crate) fn push_decimal(out: &mut Vec<char>, n: u64)
    ensures
        final(out)@ == old(out)@ + decimal(n as nat),
    decreases n,
{
    if n >= 10 {
        push_decimal(out, n / 10);
    }
    let ghost had = out@;
    out.push((48 + (n % 10) as u8) as char);
    proof {
        assert(out@ =~= had.push(digit(n as nat % 10)));
        assert(out@ =~= old(out)@ + decimal(n as nat));
    }
}

/// The directory name to try for a world whose name is taken: the name with a number
/// in brackets.
pub fn numbered_dir_name(base: &str, suffix: u32) -> (r: String)
    ensures
        r@ == numbered(base@, suffix as nat),
{
    let mut out: Vec<char> = Vec::new();
    for c in it: base.chars()
        invariant
            it.seq() == base@,
            out@ == base@.take(it.index() as int),
    {
        out.push(c);
        assert(out@ =~= base@.take(it.index() + 1));
    }
    assert(base@.take(base@.len() as int) =~= base@);
    out.push(' ');
    out.push('(');
    push_decimal(&mut out, suffix as u64);
    out.push(')');
    assert(out@ =~= numbered(base@, suffix as nat));
    text_from_chars(out)
}

/// Whether a name is among those that are taken.
pub open spec fn is_taken(taken: Seq<String>, name: Seq<char>) -> bool {
    exists|i: int| 0 <= i < taken.len() && (#[trigger] taken[i])@ == name
}

/// Whether a number is the first, from two on, whose name is free.
pub open spec fn is_first_free(taken: Seq<String>, base: Seq<char>, suffix: nat) -> bool {
    &&& suffix >= 2
    &&& !is_taken(taken, numbered(base, suffix))
    &&& forall|n: nat| 2 <= n < suffix ==> is_taken(taken, #[trigger] numbered(base, n))
}

/// Where a taken name stands.
spec fn taken_at(taken: Seq<String>, name: Seq<char>) -> int {
    choose|i: int| 0 <= i < taken.len() && (#[trigger] taken[i])@ == name
}

/// There are no more numbers whose names are taken than names that are taken.
proof fn lemma_numbers_run_out(taken: Seq<String>, base: Seq<char>, suffix: nat)
    requires
        2 <= suffix <= u32::MAX,
        forall|n: nat| 2 <= n < suffix ==> is_taken(taken, #[trigger] numbered(base, n)),
    ensures
        suffix - 2 <= taken.len(),
{
    let places = Seq::new(
        (suffix - 2) as nat,
        |k: int| taken_at(taken, numbered(base, (k + 2) as nat)),
    );
    assert forall|k: int| 0 <= k < places.len() implies 0 <= #[trigger] places[k] < taken.len()
        && taken[places[k]]@ == numbered(base, (k + 2) as nat) by {
        assert(is_taken(taken, numbered(base, (k + 2) as nat)));
    }
    assert(places.no_duplicates()) by {
        assert forall|j: int, k: int|
            0 <= j < places.len() && 0 <= k < places.len() && j != k implies places[j]
            != places[k] by {
            if places[j] == places[k] {
                numbered_names_differ(base, (j + 2) as nat, (k + 2) as nat);
            }
        }
    }
    places.unique_seq_to_set();
    lemma_int_range(0, taken.len() as int);
    assert(places.to_set().subset_of(set_int_range(0, taken.len() as int)));
    lemma_len_subset(places.to_set(), set_int_range(0, taken.len() as int));
}

fn find_taken(taken: &Vec<String>, name: &String) -> (r: bool)
    ensures
        r == is_taken(taken@, name@),
{
    let mut i: usize = 0;
    while i < taken.len()
        invariant
            i <= taken.len(),
            forall|j: int| 0 <= j < i ==> (#[trigger] taken@[j])@ != name@,
        decreases taken.len() - i,
    {
        if taken[i] == *name {
            assert(taken@[i as int]@ == name@);
            return true;
        }
        i += 1;
    }
    false
}

/// The directory name for a new world beside those that are taken: the world's own, or
/// that with the first number that makes it free.
pub fn unique_world_dir(name: &str, taken: &Vec<String>) -> (r: String)
    requires
        taken@.len() < u32::MAX - 2,
    ensures
        !is_taken(taken@, r@),
        !is_taken(taken@, dir_name(name@)) ==> r@ == dir_name(name@),
        is_taken(taken@, dir_name(name@)) ==> exists|suffix: nat| #[trigger]
            is_first_free(taken@, dir_name(name@), suffix) && r@ == numbered(
                dir_name(name@),
                suffix,
            ),
{
    let base = sanitize_dir_name(name);
    if !find_taken(taken, &base) {
        return base;
    }
    let mut suffix: u32 = 2;
    loop
        invariant
            taken@.len() < u32::MAX - 2,
            base@ == dir_name(name@),
            is_taken(taken@, dir_name(name@)),
            2 <= suffix,
            forall|n: nat| 2 <= n < suffix ==> is_taken(taken@, #[trigger] numbered(base@, n)),
        decreases u32::MAX - suffix,
    {
        let candidate = numbered_dir_name(base.as_str(), suffix);
        if !find_taken(taken, &candidate) {
            assert(is_first_free(taken@, base@, suffix as nat));
            return candidate;
        }
        proof {
            lemma_numbers_run_out(taken@, base@, suffix as nat);
        }
        suffix += 1;
    }
}

/// A directory name has no separators, no control characters, no underscore at its
/// end, and is never empty.
pub proof fn dir_names_are_safe(name: Seq<char>, i: int)
    requires
        0 <= i < dir_name(name).len(),
    ensures
        !separates(dir_name(name)[i]),
        !is_control(dir_name(name)[i]),
        dir_name(name).len() > 0,
        dir_name(name).last() != '_',
{
    lemma_joined_is_safe(name);
    lemma_trimmed(joined(name).0);
}

proof fn lemma_joined_is_safe(name: Seq<char>)
    ensures
        forall|i: int|
            0 <= i < joined(name).0.len() ==> !separates(#[trigger] joined(name).0[i])
                && !is_control(joined(name).0[i]),
    decreases name.len(),
{
    if name.len() > 0 {
        lemma_joined_is_safe(name.drop_last());
        let before = joined(name.drop_last()).0;
        let out = joined(name).0;
        assert forall|i: int| 0 <= i < out.len() implies !separates(#[trigger] out[i])
            && !is_control(out[i]) by {
            if i < before.len() {
                assert(out[i] == before[i]);
            }
        }
    }
}

proof fn lemma_trimmed(name: Seq<char>)
    ensures
        trimmed(name).len() <= name.len(),
        trimmed(name) == name.take(trimmed(name).len() as int),
        trimmed(name).len() > 0 ==> trimmed(name).last() != '_',
    decreases name.len(),
{
    if name.len() > 0 && name.last() == '_' {
        lemma_trimmed(name.drop_last());
        let t = trimmed(name.drop_last());
        assert(name.drop_last().take(t.len() as int) =~= name.take(t.len() as int));
    } else {
        assert(name.take(name.len() as int) =~= name);
    }
}

/// A directory name is its own directory name.
pub proof fn dir_names_are_stable(name: Seq<char>)
    ensures
        dir_name(dir_name(name)) == dir_name(name),
{
    let out = dir_name(name);
    assert(out.len() > 0 && out.last() != '_') by {
        lemma_trimmed(joined(name).0);
    }
    assert forall|i: int| 0 <= i < out.len() implies !separates(#[trigger] out[i]) && !is_control(
        out[i],
    ) by {
        dir_names_are_safe(name, i);
    }
    lemma_joined_of_safe(out);
}

proof fn lemma_joined_of_safe(name: Seq<char>)
    requires
        forall|i: int|
            0 <= i < name.len() ==> !separates(#[trigger] name[i]) && !is_control(name[i]),
    ensures
        joined(name) == (name, false),
    decreases name.len(),
{
    if name.len() > 0 {
        lemma_joined_of_safe(name.drop_last());
        assert(name.drop_last().push(name.last()) =~= name);
    } else {
        assert(name =~= Seq::<char>::empty());
    }
}

/// Different numbers have different digits, so every number gives a name of its own.
pub proof fn numbered_names_differ(base: Seq<char>, a: nat, b: nat)
    requires
        numbered(base, a) == numbered(base, b),
        a <= u32::MAX,
        b <= u32::MAX,
    ensures
        a == b,
{
    let x = numbered(base, a);
    let y = numbered(base, b);
    let n = base.len() as int;
    assert(x.len() == n + 2 + decimal(a).len() + 1);
    assert(y.len() == n + 2 + decimal(b).len() + 1);
    assert(decimal(a) =~= x.subrange(n + 2, x.len() - 1));
    assert(decimal(b) =~= y.subrange(n + 2, y.len() - 1));
    lemma_decimals_differ(a, b);
}

proof fn lemma_decimals_differ(a: nat, b: nat)
    requires
        decimal(a) == decimal(b),
    ensures
        a == b,
    decreases a,
{
    assert(decimal(a).last() == digit(a % 10));
    assert(decimal(b).last() == digit(b % 10));
    if a >= 10 && b >= 10 {
        assert(decimal(a).drop_last() =~= decimal(a / 10));
        assert(decimal(b).drop_last() =~= decimal(b / 10));
        lemma_decimals_differ(a / 10, b / 10);
    } else if a >= 10 {
        lemma_decimal_len(a / 10);
    } else if b >= 10 {
        lemma_decimal_len(b / 10);
    }
}

proof fn lemma_decimal_len(n: nat)
    ensures
        decimal(n).len() > 0,
{
}

/// The order of texts: by their bytes from the first on, a text before its
/// continuations.
pub open spec fn text_less(a: Seq<u8>, b: Seq<u8>) -> bool
    decreases a.len(),
{
    if b.len() == 0 {
        false
    } else if a.len() == 0 {
        true
    } else if a[0] != b[0] {
        a[0] < b[0]
    } else {
        text_less(a.drop_first(), b.drop_first())
    }
}

/// The bytes of a save's name.
pub open spec fn name_bytes(save: WorldSave) -> Seq<u8> {
    encode_utf8(save.name@)
}

/// Where a save goes among sorted saves: before the first with a later name.
pub open spec fn place_for(saves: Seq<WorldSave>, save: WorldSave, i: int) -> int
    decreases saves.len() - i,
{
    if i >= saves.len() || text_less(name_bytes(save), name_bytes(saves[i])) {
        i
    } else {
        place_for(saves, save, i + 1)
    }
}

/// Saves by name; saves of one name keep their order.
pub open spec fn by_name(saves: Seq<WorldSave>) -> Seq<WorldSave>
    decreases saves.len(),
{
    if saves.len() == 0 {
        saves
    } else {
        let sorted = by_name(saves.drop_last());
        sorted.insert(place_for(sorted, saves.last(), 0), saves.last())
    }
}

fn is_text_less(a: &[u8], b: &[u8]) -> (r: bool)
    ensures
        r == text_less(a@, b@),
{
    let mut i: usize = 0;
    assert(a@.skip(0) =~= a@ && b@.skip(0) =~= b@);
    while i < a.len() && i < b.len()
        invariant
            i <= a.len(),
            i <= b.len(),
            text_less(a@, b@) == text_less(a@.skip(i as int), b@.skip(i as int)),
        decreases a.len() - i,
    {
        if a[i] != b[i] {
            return a[i] < b[i];
        }
        assert(a@.skip(i as int).drop_first() =~= a@.skip(i + 1));
        assert(b@.skip(i as int).drop_first() =~= b@.skip(i + 1));
        i += 1;
    }
    i < b.len()
}

/// Sorts saves by name; saves of one name keep their order.
pub fn sort_by_name(saves: Vec<WorldSave>) -> (r: Vec<WorldSave>)
    ensures
        r@ == by_name(saves@),
{
    let ghost all = saves@;
    let mut rest: Vec<WorldSave> = saves;
    let mut sorted: Vec<WorldSave> = Vec::new();
    let ghost mut done: int = 0;
    assert(all.take(0) =~= Seq::<WorldSave>::empty());
    assert(rest@ =~= all.skip(0));
    while rest.len() > 0
        invariant
            0 <= done <= all.len(),
            rest@ == all.skip(done),
            sorted@ == by_name(all.take(done)),
        decreases rest.len(),
    {
        let save = rest.remove(0);
        let mut i: usize = 0;
        while i < sorted.len() && !is_text_less(
            save.name.as_str().as_bytes(),
            sorted[i].name.as_str().as_bytes(),
        )
            invariant
                i <= sorted.len(),
                place_for(sorted@, save, 0) == place_for(sorted@, save, i as int),
            decreases sorted.len() - i,
        {
            i += 1;
        }
        sorted.insert(i, save);
        proof {
            let next = all.take(done + 1);
            assert(next.drop_last() =~= all.take(done));
            assert(next.last() == save);
            assert(rest@ =~= all.skip(done + 1));
            done = done + 1;
        }
    }
    assert(all.take(done) =~= all);
    sorted
}

/// What saves hold.
pub open spec fn contents(saves: Seq<WorldSave>) -> Seq<SaveView> {
    Seq::new(saves.len(), |i: int| saves[i]@)
}

/// What can be read from the files of worlds. Files that hold no save are skipped.
pub open spec fn readable(files: Seq<Vec<u8>>) -> Seq<SaveView>
    decreases files.len(),
{
    if files.len() == 0 {
        Seq::empty()
    } else if is_save(files.last()@) {
        readable(files.drop_last()).push(read_save(files.last()@))
    } else {
        readable(files.drop_last())
    }
}

/// The worlds that can be read from the files of worlds, by name.
pub fn list_worlds(files: &Vec<Vec<u8>>) -> (r: Vec<WorldSave>)
    ensures
        exists|found: Seq<WorldSave>| #[trigger]
            contents(found) == readable(files@) && r@ == by_name(found),
{
    let mut found: Vec<WorldSave> = Vec::new();
    let mut i: usize = 0;
    assert(files@.take(0) =~= Seq::<Vec<u8>>::empty());
    assert(contents(found@) =~= readable(files@.take(0)));
    while i < files.len()
        invariant
            i <= files.len(),
            contents(found@) == readable(files@.take(i as int)),
        decreases files.len() - i,
    {
        assert(files@.take(i + 1).drop_last() =~= files@.take(i as int));
        let ghost had = found@;
        if let Some(save) = parse_world_save(files[i].as_slice()) {
            found.push(save);
            assert(contents(found@) =~= contents(had).push(save@));
        }
        i += 1;
    }
    assert(files@.take(i as int) =~= files@);
    sort_by_name(found)
}

/// Sorted saves are in the order of their names, and none is lost or added.
pub proof fn sorting_orders_names(saves: Seq<WorldSave>)
    ensures
        by_name(saves).to_multiset() == saves.to_multiset(),
        forall|i: int, j: int|
            0 <= i < j < by_name(saves).len() ==> !text_less(
                name_bytes(#[trigger] by_name(saves)[j]),
                name_bytes(#[trigger] by_name(saves)[i]),
            ),
    decreases saves.len(),
{
    if saves.len() > 0 {
        let rest = saves.drop_last();
        let save = saves.last();
        sorting_orders_names(rest);
        let sorted = by_name(rest);
        let p = place_for(sorted, save, 0);
        lemma_place_for(sorted, save, 0);
        let all = sorted.insert(p, save);
        to_multiset_insert(sorted, p, save);
        to_multiset_insert(rest, rest.len() as int, save);
        assert(rest.insert(rest.len() as int, save) =~= saves);
        assert forall|i: int, j: int| 0 <= i < j < all.len() implies !text_less(
            name_bytes(#[trigger] all[j]),
            name_bytes(#[trigger] all[i]),
        ) by {
            let a = name_bytes(all[i]);
            let b = name_bytes(all[j]);
            if i == p {
                lemma_text_order(a, name_bytes(sorted[p]), b);
                lemma_text_not_before_itself(b);
                if j - 1 > p {
                    assert(!text_less(name_bytes(sorted[j - 1]), name_bytes(sorted[p])));
                }
            } else if j == p {
                assert(!text_less(name_bytes(save), name_bytes(sorted[i])));
            } else {
                let x = if i < p {
                    i
                } else {
                    i - 1
                };
                let y = if j < p {
                    j
                } else {
                    j - 1
                };
                assert(all[i] == sorted[x] && all[j] == sorted[y]);
            }
        }
    }
}

proof fn lemma_place_for(saves: Seq<WorldSave>, save: WorldSave, i: int)
    requires
        0 <= i <= saves.len(),
    ensures
        i <= place_for(saves, save, i) <= saves.len(),
        forall|k: int|
            i <= k < place_for(saves, save, i) ==> !text_less(
                name_bytes(save),
                name_bytes(#[trigger] saves[k]),
            ),
        place_for(saves, save, i) < saves.len() ==> text_less(
            name_bytes(save),
            name_bytes(saves[place_for(saves, save, i)]),
        ),
    decreases saves.len() - i,
{
    if i < saves.len() && !text_less(name_bytes(save), name_bytes(saves[i])) {
        lemma_place_for(saves, save, i + 1);
    }
}

proof fn lemma_text_not_before_itself(a: Seq<u8>)
    ensures
        !text_less(a, a),
    decreases a.len(),
{
    if a.len() > 0 {
        lemma_text_not_before_itself(a.drop_first());
    }
}

/// What is before a text is before all that the text is not after.
proof fn lemma_text_order(a: Seq<u8>, b: Seq<u8>, c: Seq<u8>)
    ensures
        text_less(a, b) && !text_less(c, b) ==> !text_less(c, a),
    decreases a.len(),
{
    if a.len() > 0 && b.len() > 0 && c.len() > 0 {
        lemma_text_order(a.drop_first(), b.drop_first(), c.drop_first());
    }
}

/// Names without anything that separates or controls stay as they are.
pub proof fn ordinary_names_stay(name: Seq<char>)
    requires
        name.len() > 0,
        name.last() != '_',
        forall|i: int|
            0 <= i < name.len() ==> (#[trigger] name[i]) != '/' && name[i] != '\\' && name[i]
                != ':' && !is_white(name[i]) && !is_control(name[i]),
    ensures
        dir_name(name) == name,
{
    lemma_joined_of_safe(name);
}

/// Two words that are parted by any number of separators are joined by one underscore.
pub proof fn words_are_joined(first: Seq<char>, gap: Seq<char>, second: Seq<char>)
    requires
        first.len() > 0,
        gap.len() > 0,
        second.len() > 0,
        second.last() != '_',
        forall|i: int|
            0 <= i < first.len() ==> !separates(#[trigger] first[i]) && !is_control(first[i]),
        forall|i: int|
            0 <= i < second.len() ==> !separates(#[trigger] second[i]) && !is_control(second[i]),
        forall|i: int|
            0 <= i < gap.len() ==> (#[trigger] gap[i]) == '/' || gap[i] == '\\' || gap[i] == ':'
                || gap[i] == ' ',
    ensures
        dir_name(first + gap + second) == first + seq!['_'] + second,
{
    lemma_joined_of_safe(first);
    lemma_gap_joined(first, gap);
    lemma_word_joined(first + gap, first, second);
    assert((first + seq!['_'] + second).last() == second.last());
}

proof fn lemma_gap_joined(first: Seq<char>, gap: Seq<char>)
    requires
        first.len() > 0,
        joined(first) == (first, false),
        forall|i: int|
            0 <= i < gap.len() ==> (#[trigger] gap[i]) == '/' || gap[i] == '\\' || gap[i] == ':'
                || gap[i] == ' ',
    ensures
        joined(first + gap) == (first, gap.len() > 0),
    decreases gap.len(),
{
    if gap.len() > 0 {
        let rest = gap.drop_last();
        lemma_gap_joined(first, rest);
        assert((first + gap).drop_last() =~= first + rest);
        assert((first + gap).last() == gap[gap.len() - 1]);
    } else {
        assert(first + gap =~= first);
    }
}

proof fn lemma_word_joined(before: Seq<char>, first: Seq<char>, word: Seq<char>)
    requires
        joined(before) == (first, true),
        forall|i: int|
            0 <= i < word.len() ==> !separates(#[trigger] word[i]) && !is_control(word[i]),
    ensures
        word.len() > 0 ==> joined(before + word) == (first + seq!['_'] + word, false),
    decreases word.len(),
{
    if word.len() > 0 {
        let rest = word.drop_last();
        lemma_word_joined(before, first, rest);
        assert((before + word).drop_last() =~= before + rest);
        assert((before + word).last() == word[word.len() - 1]);
        if rest.len() == 0 {
            assert(before + rest =~= before);
            assert(first.push('_').push(word.last()) =~= first + seq!['_'] + word);
        } else {
            assert((first + seq!['_'] + rest).push(word.last()) =~= first + seq!['_'] + word);
        }
    }
}

/// A number in a name is written in digits, and reads as itself: its last digit is what is
/// left over by tens, and the digits before it are those of the tens.
pub proof fn numbers_are_written_in_tens(n: nat)
    ensures
        decimal(n).len() >= 1,
        decimal(n).last() == (('0' as u32 + (n % 10) as u32) as char),
        n >= 10 ==> decimal(n).drop_last() == decimal(n / 10),
        n < 10 ==> decimal(n).len() == 1,
{
    if n >= 10 {
        assert(decimal(n).drop_last() =~= decimal(n / 10));
    }
}

/// Texts are in the order of dictionaries: by the first byte in which they differ, and a
/// beginning before the whole.
pub proof fn texts_are_ordered_like_words(a: Seq<u8>, b: Seq<u8>, k: int)
    requires
        0 <= k <= a.len(),
        k <= b.len(),
        forall|i: int| 0 <= i < k ==> #[trigger] a[i] == b[i],
    ensures
        k < a.len() && k < b.len() && a[k] < b[k] ==> text_less(a, b) && !text_less(b, a),
        k == a.len() && k < b.len() ==> text_less(a, b) && !text_less(b, a),
        k == a.len() && k == b.len() ==> !text_less(a, b),
    decreases k,
{
    if k > 0 {
        let (c, d) = (a.drop_first(), b.drop_first());
        assert forall|i: int| 0 <= i < k - 1 implies #[trigger] c[i] == d[i] by {
            assert(c[i] == a[i + 1] && d[i] == b[i + 1]);
        }
        assert(a[0] == b[0]);
        texts_are_ordered_like_words(c, d, k - 1);
    }
}

/// Every file that can be read is listed, and nothing else is.
pub proof fn readable_files_are_listed(files: Seq<Vec<u8>>, i: int)
    ensures
        0 <= i < files.len() && is_save(files[i]@) ==> readable(files).contains(
            read_save(files[i]@),
        ),
        0 <= i < readable(files).len() ==> exists|k: int|
            0 <= k < files.len() && is_save((#[trigger] files[k])@) && readable(files)[i]
                == read_save(files[k]@),
        readable(files).len() <= files.len(),
    decreases files.len(),
{
    if files.len() > 0 {
        let rest = files.drop_last();
        readable_files_are_listed(rest, i);
        let last = files[files.len() - 1];
        let before = readable(rest);
        let all = readable(files);
        if 0 <= i < rest.len() && is_save(files[i]@) {
            assert(rest[i] == files[i]);
            let k = choose|k: int| 0 <= k < before.len() && before[k] == read_save(files[i]@);
            assert(all[k] == before[k]);
        }
        if is_save(last@) {
            assert(all[before.len() as int] == read_save(last@));
        }
        if 0 <= i < before.len() {
            let k = choose|k: int|
                0 <= k < rest.len() && is_save((#[trigger] rest[k])@) && before[i] == read_save(
                    rest[k]@,
                );
            assert(files[k] == rest[k]);
        }
    }
}

/// A numbered name is the name, and after it the number in brackets.
pub proof fn numbers_follow_in_brackets(base: Seq<char>, n: nat)
    ensures
        ({
            let name = numbered(base, n);
            let at = base.len() as int;
            &&& name.take(at) == base
            &&& name[at] == ' ' && name[at + 1] == '(' && name.last() == ')'
            &&& name.subrange(at + 2, name.len() - 1) == decimal(n)
        }),
{
    let name = numbered(base, n);
    let at = base.len() as int;
    assert(name.take(at) =~= base);
    assert(name.subrange(at + 2, name.len() - 1) =~= decimal(n));
}

/// A name with nothing in it to keep is replaced.
pub proof fn nameless_worlds_are_called_world(name: Seq<char>)
    requires
        forall|i: int|
            0 <= i < name.len() ==> separates(#[trigger] name[i]) || is_control(name[i]),
    ensures
        dir_name(name) == seq!['w', 'o', 'r', 'l', 'd'],
{
    lemma_nothing_joined(name);
}

proof fn lemma_nothing_joined(name: Seq<char>)
    requires
        forall|i: int|
            0 <= i < name.len() ==> separates(#[trigger] name[i]) || is_control(name[i]),
    ensures
        joined(name) == (Seq::<char>::empty(), false),
    decreases name.len(),
{
    if name.len() > 0 {
        assert(name.last() == name[name.len() - 1]);
        lemma_nothing_joined(name.drop_last());
    }
}

} // verus!
