//! The recipe book: what can be crafted and smelted from what.

use crate::world::block::Block;
use vstd::prelude::*;

verus! {

/// The number of cells of the crafting grid.
pub const CRAFTING_SLOTS: usize = 9;

/// How a recipe is made.
#[derive(Clone, Copy, Debug, PartialEq, Eq, Structural)]
pub enum RecipeKind {
    Crafting,
    Smelting,
}

impl RecipeKind {
    /// The name that players see.
    pub fn display(self) -> (r: &'static str)
        ensures
            r == (match self {
                RecipeKind::Crafting => "合成",
                RecipeKind::Smelting => "烧炼",
            }),
    {
        match self {
            RecipeKind::Crafting => "合成",
            RecipeKind::Smelting => "烧炼",
        }
    }
}

/// A recipe. Smelting uses the first cell of the grid only.
#[derive(Clone, Copy, Debug, PartialEq, Eq)]
pub struct Recipe {
    pub id: &'static str,
    pub kind: RecipeKind,
    /// The crafting grid, row by row.
    pub ingredients: [Option<Block>; CRAFTING_SLOTS],
    pub output: Block,
    pub output_count: u16,
}

/// The contents of a recipe.
#[verifier::ext_equal]
pub struct RecipeView {
    pub id: &'static str,
    pub kind: RecipeKind,
    pub ingredients: Seq<Option<Block>>,
    pub output: Block,
    pub output_count: u16,
}

impl View for Recipe {
    type V = RecipeView;

    open spec fn view(&self) -> RecipeView {
        RecipeView {
            id: self.id,
            kind: self.kind,
            ingredients: self.ingredients@,
            output: self.output,
            output_count: self.output_count,
        }
    }
}

/// A grid with one block.
pub open spec fn one_cell(block: Block) -> Seq<Option<Block>> {
    seq![Some(block), None, None, None, None, None, None, None, None]
}

/// A grid with a square of four blocks.
pub open spec fn four_cells(block: Block) -> Seq<Option<Block>> {
    seq![
        Some(block),
        Some(block),
        None,
        Some(block),
        Some(block),
        None,
        None,
        None,
        None,
    ]
}

/// All recipes.
pub open spec fn book() -> Seq<RecipeView> {
    seq![
        RecipeView {
            id: "mc:oak_planks",
            kind: RecipeKind::Crafting,
            ingredients: one_cell(Block::OakLog),
            output: Block::OakPlanks,
            output_count: 4,
        },
        RecipeView {
            id: "mc:sandstone",
            kind: RecipeKind::Crafting,
            ingredients: four_cells(Block::Sand),
            output: Block::Sandstone,
            output_count: 1,
        },
        RecipeView {
            id: "mc:glass",
            kind: RecipeKind::Smelting,
            ingredients: one_cell(Block::Sand),
            output: Block::Glass,
            output_count: 1,
        },
        RecipeView {
            id: "mc:stone",
            kind: RecipeKind::Smelting,
            ingredients: one_cell(Block::Cobblestone),
            output: Block::Stone,
            output_count: 1,
        },
    ]
}

/// The contents of recipes.
pub open spec fn contents(recipes: Seq<Recipe>) -> Seq<RecipeView> {
    recipes.map_values(|recipe: Recipe| recipe@)
}

/// Whether a recipe makes a block.
pub open spec fn makes(output: Block) -> spec_fn(RecipeView) -> bool {
    |recipe: RecipeView| recipe.output == output
}

/// Whether a recipe needs a block.
pub open spec fn needs(ingredient: Block) -> spec_fn(RecipeView) -> bool {
    |recipe: RecipeView| recipe.ingredients.contains(Some(ingredient))
}

impl Recipe {
    /// A crafting recipe.
    pub fn crafting(
        id: &'static str,
        ingredients: [Option<Block>; CRAFTING_SLOTS],
        output: Block,
        output_count: u16,
    ) -> (r: Recipe)
        ensures
            r == (Recipe { id, kind: RecipeKind::Crafting, ingredients, output, output_count }),
    {
        Recipe { id, kind: RecipeKind::Crafting, ingredients, output, output_count }
    }

    /// A smelting recipe.
    pub fn smelting(
        id: &'static str,
        ingredient: Block,
        output: Block,
        output_count: u16,
    ) -> (r: Recipe)
        ensures
            r@ == (RecipeView {
                id,
                kind: RecipeKind::Smelting,
                ingredients: one_cell(ingredient),
                output,
                output_count,
            }),
    {
        Recipe {
            id,
            kind: RecipeKind::Smelting,
            ingredients: one(ingredient),
            output,
            output_count,
        }
    }
}

fn one(block: Block) -> (r: [Option<Block>; CRAFTING_SLOTS])
    ensures
        r@ == one_cell(block),
{
    let r = [Some(block), None, None, None, None, None, None, None, None];
    assert(r@ =~= one_cell(block));
    r
}

fn four(block: Block) -> (r: [Option<Block>; CRAFTING_SLOTS])
    ensures
        r@ == four_cells(block),
{
    let r = [Some(block), Some(block), None, Some(block), Some(block), None, None, None, None];
    assert(r@ =~= four_cells(block));
    r
}

/// All recipes.
pub fn all() -> (r: [Recipe; 4])
    ensures
        contents(r@) == book(),
{
    let r = [
        Recipe::crafting("mc:oak_planks", one(Block::OakLog), Block::OakPlanks, 4),
        Recipe::crafting("mc:sandstone", four(Block::Sand), Block::Sandstone, 1),
        Recipe::smelting("mc:glass", Block::Sand, Block::Glass, 1),
        Recipe::smelting("mc:stone", Block::Cobblestone, Block::Stone, 1),
    ];
    assert(contents(r@) =~= book());
    r
}

fn has_ingredient(recipe: &Recipe, ingredient: Block) -> (r: bool)
    ensures
        r == recipe@.ingredients.contains(Some(ingredient)),
{
    let mut i: usize = 0;
    while i < CRAFTING_SLOTS
        invariant
            i <= CRAFTING_SLOTS,
            forall|k: int| 0 <= k < i ==> #[trigger] recipe.ingredients@[k] != Some(ingredient),
        decreases CRAFTING_SLOTS - i,
    {
        if let Some(block) = recipe.ingredients[i] {
            if block == ingredient {
                assert(recipe.ingredients@[i as int] == Some(ingredient));
                return true;
            }
        }
        i += 1;
    }
    false
}

/// The recipes that make a block.
pub fn for_output(output: Block) -> (r: Vec<Recipe>)
    ensures
        contents(r@) == book().filter(makes(output)),
{
    let recipes = all();
    let mut out: Vec<Recipe> = Vec::new();
    let mut i: usize = 0;
    proof {
        reveal(Seq::filter);
        assert(contents(out@) =~= book().take(0).filter(makes(output)));
    }
    while i < 4
        invariant
            i <= 4,
            contents(recipes@) == book(),
            contents(out@) == book().take(i as int).filter(makes(output)),
        decreases 4 - i,
    {
        proof {
            reveal(Seq::filter);
            assert(book().take(i + 1).drop_last() =~= book().take(i as int));
            assert(contents(recipes@)[i as int] == recipes@[i as int]@);
        }
        if recipes[i].output == output {
            let ghost had = out@;
            out.push(recipes[i]);
            assert(contents(out@) =~= contents(had).push(recipes@[i as int]@));
        }
        i += 1;
    }
    assert(book().take(4) =~= book());
    out
}

/// The recipes that need a block.
pub fn using(ingredient: Block) -> (r: Vec<Recipe>)
    ensures
        contents(r@) == book().filter(needs(ingredient)),
{
    let recipes = all();
    let mut out: Vec<Recipe> = Vec::new();
    let mut i: usize = 0;
    proof {
        reveal(Seq::filter);
        assert(contents(out@) =~= book().take(0).filter(needs(ingredient)));
    }
    while i < 4
        invariant
            i <= 4,
            contents(recipes@) == book(),
            contents(out@) == book().take(i as int).filter(needs(ingredient)),
        decreases 4 - i,
    {
        proof {
            reveal(Seq::filter);
            assert(book().take(i + 1).drop_last() =~= book().take(i as int));
            assert(contents(recipes@)[i as int] == recipes@[i as int]@);
        }
        if has_ingredient(&recipes[i], ingredient) {
            let ghost had = out@;
            out.push(recipes[i]);
            assert(contents(out@) =~= contents(had).push(recipes@[i as int]@));
        }
        i += 1;
    }
    assert(book().take(4) =~= book());
    out
}

/// Every recipe makes at least one of a block, and needs no air.
pub proof fn recipes_are_sound(i: int, cell: int)
    requires
        0 <= i < book().len(),
        0 <= cell < CRAFTING_SLOTS,
    ensures
        book()[i].output != Block::Air,
        book()[i].output_count > 0,
        book()[i].ingredients.len() == CRAFTING_SLOTS,
        book()[i].ingredients[cell] != Some(Block::Air),
{
}

/// No two recipes share an id.
pub proof fn recipe_ids_are_distinct(i: int, j: int)
    requires
        0 <= i < j < book().len(),
    ensures
        book()[i].id@ != book()[j].id@,
{
    reveal_strlit("mc:oak_planks");
    reveal_strlit("mc:sandstone");
    reveal_strlit("mc:glass");
    reveal_strlit("mc:stone");
    let a = book()[i].id@;
    let b = book()[j].id@;
    if a == b {
        assert(a.len() == b.len());
        assert(a[3] == b[3]);
    }
}

/// A log makes four planks, four sand in a square make sandstone, sand melts to glass and
/// cobblestone to stone. There are no other recipes.
pub proof fn recipes_are_known(i: int)
    requires
        0 <= i < book().len(),
    ensures
        book().len() == 4,
        ({
            let recipe = book()[i];
            let crafted = recipe.kind == RecipeKind::Crafting;
            let from = recipe.ingredients[0];
            ||| recipe.output == Block::OakPlanks && recipe.output_count == 4 && crafted && from
                == Some(Block::OakLog) && stands_alone(recipe.ingredients)
            ||| recipe.output == Block::Sandstone && recipe.output_count == 1 && crafted && from
                == Some(Block::Sand) && is_square(recipe.ingredients)
            ||| recipe.output == Block::Glass && recipe.output_count == 1 && !crafted && from
                == Some(Block::Sand) && stands_alone(recipe.ingredients)
            ||| recipe.output == Block::Stone && recipe.output_count == 1 && !crafted && from
                == Some(Block::Cobblestone) && stands_alone(recipe.ingredients)
        }),
        forall|j: int|
            0 <= j < book().len() && j != i ==> (#[trigger] book()[j]).output != book()[i].output,
{
}

/// Whether nothing but the first cell is filled.
pub open spec fn stands_alone(cells: Seq<Option<Block>>) -> bool {
    cells.len() == 9 && forall|k: int| 0 < k < 9 ==> (#[trigger] cells[k]) is None
}

/// Whether the cells of the upper left square are filled alike, and no others are.
pub open spec fn is_square(cells: Seq<Option<Block>>) -> bool {
    &&& cells.len() == 9
    &&& forall|k: int|
        0 <= k < 9 ==> (#[trigger] cells[k]) == if k / 3 < 2 && k % 3 < 2 {
            cells[0]
        } else {
            None
        }
}

/// A recipe is found by what it makes and by each block that it needs, and by no other.
pub proof fn recipes_are_found_by_their_blocks(recipe: RecipeView, block: Block, k: int)
    ensures
        makes(recipe.output)(recipe),
        makes(block)(recipe) ==> block == recipe.output,
        0 <= k < recipe.ingredients.len() && recipe.ingredients[k] == Some(block) ==> needs(block)(
            recipe,
        ),
        (forall|i: int|
            0 <= i < recipe.ingredients.len() ==> (#[trigger] recipe.ingredients[i]) != Some(block))
            ==> !needs(block)(recipe),
{
    if needs(block)(recipe) {
        let i = choose|i: int|
            0 <= i < recipe.ingredients.len() && recipe.ingredients[i] == Some(block);
        assert(recipe.ingredients[i] == Some(block));
    }
}

} // verus!
