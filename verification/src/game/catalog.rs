//! The item browser: search, pages and recipe details.

use crate::game::text::{has_part, is_part, lowercase, to_lower, trim_text, without_margins};
use crate::world::block::{Block, Face, ALL, COUNT};
use crate::world::recipe::{book, contents, for_output, makes, needs, using, Recipe};
use vstd::prelude::*;

verus! {

/// Items of a row of the browser.
pub const JEI_COLUMNS: usize = 6;

/// Usages that are shown of a block.
pub const SHOWN_USAGES: usize = 2;

/// Whether names match a query, all in lower case. An empty query matches everything.
pub open spec fn is_match(query: Seq<char>, display: Seq<char>, name: Seq<char>) -> bool {
    query.len() == 0 || is_part(display, query) || is_part(name, query)
}

/// Whether names match a query, all in lower case.
pub fn matches_query(query: &str, display: &str, name: &str) -> (r: bool)
    ensures
        r == is_match(query@, display@, name@),
{
    query.is_empty() || has_part(display, query) || has_part(name, query)
}

/// Whether a block is found by a search.
pub open spec fn is_found(search: Seq<char>, block: Block) -> bool {
    block != Block::Air && is_match(
        lowercase(without_margins(search)),
        lowercase(block.spec_def().display@),
        lowercase(block.spec_def().name@),
    )
}

/// The blocks that a search finds among the first `n`, in the order of their ids.
pub open spec fn found_below(search: Seq<char>, n: nat) -> Seq<Block>
    decreases n,
{
    if n == 0 {
        Seq::empty()
    } else {
        let before = found_below(search, (n - 1) as nat);
        if is_found(search, ALL@[n - 1]) {
            before.push(ALL@[n - 1])
        } else {
            before
        }
    }
}

/// The blocks that a search finds, in the order of their ids. White space around the
/// search and the case of letters do not matter.
pub fn jei_matches(search: &str) -> (r: Vec<Block>)
    ensures
        r@ == found_below(search@, COUNT as nat),
{
    let query = to_lower(trim_text(search).as_str());
    let mut found: Vec<Block> = Vec::new();
    let mut i: usize = 0;
    while i < COUNT
        invariant
            i <= COUNT,
            query@ == lowercase(without_margins(search@)),
            found@ == found_below(search@, i as nat),
        decreases COUNT - i,
    {
        let block = ALL[i];
        if block != Block::Air {
            let display = to_lower(block.def().display);
            let name = to_lower(block.def().name);
            if matches_query(query.as_str(), display.as_str(), name.as_str()) {
                found.push(block);
            }
        }
        i += 1;
    }
    found
}

/// The pages that items take: at least one.
pub open spec fn spec_page_count(items: int, per_page: int) -> int {
    if items == 0 {
        1
    } else {
        (items + per_page - 1) / per_page
    }
}

/// The pages that items take: at least one.
pub fn page_count(items: usize, per_page: usize) -> (r: usize)
    requires
        per_page > 0,
    ensures
        r == spec_page_count(items as int, per_page as int),
        r >= 1,
        (r - 1) * per_page <= items,
        items <= r * per_page,
{
    if items == 0 {
        return 1;
    }
    let full: usize = (items - 1) / per_page;
    proof {
        let q = full as int;
        let p = per_page as int;
        vstd::arithmetic::div_mod::lemma_fundamental_div_mod(items - 1, p);
        let m = (items - 1) % p;
        assert((q + 1) * p == q * p + p && q * p == p * q) by (nonlinear_arith);
        assert(items + p - 1 == (q + 1) * p + m);
        vstd::arithmetic::div_mod::lemma_fundamental_div_mod_converse(
            items + p - 1,
            p,
            q + 1,
            m,
        );
        assert(q <= items - 1) by (nonlinear_arith)
            requires
                items - 1 == p * q + m,
                m >= 0,
                p >= 1,
                q >= 0,
        ;
    }
    full + 1
}

/// The items of a page: from the first place up to, but not including, the second. A
/// page past the last is the last.
pub fn page_items(items: usize, per_page: usize, page: usize) -> (r: (usize, usize, usize))
    requires
        per_page > 0,
    ensures
        ({
            let count = spec_page_count(items as int, per_page as int);
            let shown = if page < count {
                page as int
            } else {
                count - 1
            };
            &&& r.0 == shown
            &&& r.1 == shown * per_page
            &&& r.2 == if shown * per_page + per_page <= items {
                shown * per_page + per_page
            } else {
                items as int
            }
            &&& r.1 <= r.2 <= items
        }),
{
    let count: usize = page_count(items, per_page);
    let shown: usize = if page < count { page } else { count - 1 };
    proof {
        assert(shown * per_page <= (count - 1) * per_page) by (nonlinear_arith)
            requires
                0 <= shown <= count - 1,
                per_page >= 0,
        ;
    }
    let start: usize = shown * per_page;
    let end: usize = if items - start >= per_page { start + per_page } else { items };
    (shown, start, end)
}

/// The pages together show every item, each on one page.
pub proof fn pages_show_every_item(items: int, per_page: int, i: int)
    requires
        per_page > 0,
        0 <= i < items,
    ensures
        ({
            let page = i / per_page;
            &&& 0 <= page < spec_page_count(items, per_page)
            &&& page * per_page <= i < page * per_page + per_page
        }),
        forall|other: int|
            #![trigger other * per_page]
            other * per_page <= i < other * per_page + per_page ==> other == i / per_page,
{
    let page = i / per_page;
    vstd::arithmetic::div_mod::lemma_fundamental_div_mod(i, per_page);
    assert(page * per_page == per_page * page) by (nonlinear_arith);
    assert(page >= 0) by (nonlinear_arith)
        requires
            i == per_page * page + i % per_page,
            0 <= i % per_page < per_page,
            i >= 0,
            per_page > 0,
    ;
    let count = (items + per_page - 1) / per_page;
    vstd::arithmetic::div_mod::lemma_fundamental_div_mod(items + per_page - 1, per_page);
    assert(page < count) by (nonlinear_arith)
        requires
            items + per_page - 1 == per_page * count + (items + per_page - 1) % per_page,
            0 <= (items + per_page - 1) % per_page < per_page,
            per_page * page <= i,
            i < items,
            per_page > 0,
    ;
    assert forall|other: int|
        #![trigger other * per_page]
        other * per_page <= i < other * per_page + per_page implies other == i / per_page by {
        assert(other == page) by (nonlinear_arith)
            requires
                other * per_page <= i < other * per_page + per_page,
                page * per_page <= i < page * per_page + per_page,
                per_page > 0,
        ;
    }
}

/// The face of a block that stands for it at a place of the browser.
pub fn shown_face(index: usize) -> (r: Face)
    ensures
        r == (if index % 3 == 0 {
            Face::Side
        } else if index % 3 == 1 {
            Face::Top
        } else {
            Face::Bottom
        }),
{
    match index % 3 {
        0 => Face::Side,
        1 => Face::Top,
        _ => Face::Bottom,
    }
}

/// What is shown of a block: how it is made, and what it is used for.
pub struct RecipeDetail {
    pub made_by: Option<Recipe>,
    pub used_in: Vec<Recipe>,
}

/// What is shown of a block: the first recipe that makes it, and the first few that
/// need it.
pub fn recipe_detail(block: Block) -> (r: RecipeDetail)
    ensures
        ({
            let recipes = book().filter(makes(block));
            let usages = book().filter(needs(block));
            &&& r.made_by is None <==> recipes.len() == 0
            &&& r.made_by is Some ==> (r.made_by->0)@ == recipes[0]
            &&& contents(r.used_in@) == if usages.len() <= SHOWN_USAGES {
                usages
            } else {
                usages.take(SHOWN_USAGES as int)
            }
        }),
{
    let recipes = for_output(block);
    let mut usages = using(block);
    let ghost all = usages@;
    assert(contents(recipes@).len() == recipes@.len());
    assert(contents(all).len() == all.len());
    if usages.len() > SHOWN_USAGES {
        usages.truncate(SHOWN_USAGES);
        assert(contents(usages@) =~= contents(all).take(SHOWN_USAGES as int));
    }
    let made_by = if recipes.len() > 0 {
        assert(contents(recipes@)[0] == recipes@[0]@);
        Some(recipes[0])
    } else {
        None
    };
    RecipeDetail { made_by, used_in: usages }
}

/// A search finds every block whose name has the text in it, and no other: each once, in the
/// order of the blocks, and never air.
pub proof fn searches_find_every_match(search: Seq<char>, n: nat, block: Block)
    requires
        n <= COUNT,
    ensures
        found_below(search, n).contains(block) <==> block.spec_id() < n && block != Block::Air && {
            let query = lowercase(without_margins(search));
            ||| query.len() == 0
            ||| is_part(lowercase(block.spec_def().display@), query)
            ||| is_part(lowercase(block.spec_def().name@), query)
        },
        forall|i: int, j: int|
            0 <= i < j < found_below(search, n).len() ==> (#[trigger] found_below(
                search,
                n,
            )[i]).spec_id() < (#[trigger] found_below(search, n)[j]).spec_id(),
        forall|i: int|
            0 <= i < found_below(search, n).len() ==> (#[trigger] found_below(
                search,
                n,
            )[i]).spec_id() < n,
    decreases n,
{
    if n > 0 {
        searches_find_every_match(search, (n - 1) as nat, block);
        let before = found_below(search, (n - 1) as nat);
        let last = ALL@[n - 1];
        assert(last.spec_id() == n - 1);
        assert(ALL@[block.spec_id() as int] == block);
        let all = found_below(search, n);
        if before.contains(block) {
            let i = choose|i: int| 0 <= i < before.len() && before[i] == block;
            assert(all[i] == block);
        }
        if is_found(search, last) {
            assert(all[before.len() as int] == last);
        }
        if all.contains(block) {
            let i = choose|i: int| 0 <= i < all.len() && all[i] == block;
            if i < before.len() {
                assert(before[i] == block);
            }
        }
    }
}

} // verus!
