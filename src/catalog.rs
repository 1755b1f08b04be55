use vstd::prelude::*;

use crate::book::{distinct_item_ids, first_with_id, has_id, Book, FullBook};
use crate::building::{Building, Extractor, Processor};
use crate::error::Error;
use crate::item::{Item, Nodes, Product, Resource};
use crate::reactant::Reactant;
use crate::recipe::Recipe;

verus! {

/// A building as the catalog file writes it.
#[derive(Clone, Debug)]
pub struct ExtractorDto {
    pub id: String,
    pub kind: String,
    pub power_usage: i32,
    pub normal_extraction_rate: u32,
}

#[derive(Clone, Debug)]
pub struct ProcessorDto {
    pub id: String,
    pub kind: String,
    pub power_usage: i32,
}

#[derive(Clone, Debug)]
pub enum BuildingDto {
    Extractor(ExtractorDto),
    Processor(ProcessorDto),
}

/// An item as the catalog file writes it; a resource names its extractor and may
/// count its nodes.
#[derive(Clone, Debug)]
pub struct ResourceDto {
    pub id: String,
    pub extractor: String,
    pub impure: i32,
    pub normal: i32,
    pub pure: i32,
}

#[derive(Clone, Debug)]
pub struct ProductDto {
    pub id: String,
}

#[derive(Clone, Debug)]
pub enum ItemDto {
    Resource(ResourceDto),
    Product(ProductDto),
}

#[derive(Clone, Debug)]
pub struct ReactantDto {
    pub item_id: String,
    pub quantity: u32,
}

#[derive(Clone, Debug)]
pub struct RecipeDto {
    pub id: String,
    pub duration: u32,
    pub building: String,
    pub alternate: bool,
    pub inputs: Vec<ReactantDto>,
    pub outputs: Vec<ReactantDto>,
}

/// The catalog file: its buildings, items and recipes, referring to each other by id.
#[derive(Clone, Debug)]
pub struct BookDto {
    pub name: String,
    pub buildings: Vec<BuildingDto>,
    pub items: Vec<ItemDto>,
    pub recipes: Vec<RecipeDto>,
}

/// The catalog's first item with id `id` is `item`.
pub open spec fn resolves_to(items: Seq<Item>, id: Seq<char>, item: Item) -> bool {
    first_with_id(items, id) matches Some(j) && items[j] == item
}

/// The building and every reactant item of `d` are known.
pub open spec fn recipe_resolves(d: RecipeDto, items: Seq<Item>, buildings: Seq<Building>) -> bool {
    &&& first_building(buildings, d.building@) is Some
    &&& forall|k: int| 0 <= k < d.inputs@.len() ==> first_with_id(items, (#[trigger] d.inputs@[k]).item_id@) is Some
    &&& forall|k: int| 0 <= k < d.outputs@.len() ==> first_with_id(items, (#[trigger] d.outputs@[k]).item_id@) is Some
}

/// `x` is the recipe `d` with its building and reactant items resolved.
pub open spec fn recipe_from(d: RecipeDto, items: Seq<Item>, buildings: Seq<Building>, x: Recipe) -> bool {
    &&& first_building(buildings, d.building@) matches Some(b) && x.building == buildings[b]
    &&& x.id == d.id
    &&& x.duration == d.duration
    &&& x.alternate == d.alternate
    &&& x.inputs@.len() == d.inputs@.len()
    &&& x.outputs@.len() == d.outputs@.len()
    &&& forall|k: int|
        0 <= k < d.inputs@.len() ==> resolves_to(items, (#[trigger] d.inputs@[k]).item_id@, x.inputs@[k].item)
            && x.inputs@[k].quantity == d.inputs@[k].quantity
    &&& forall|k: int|
        0 <= k < d.outputs@.len() ==> resolves_to(items, (#[trigger] d.outputs@[k]).item_id@, x.outputs@[k].item)
            && x.outputs@[k].quantity == d.outputs@[k].quantity
}

/// `e` is the error of converting `d`: its building when unknown, else an unknown item.
pub open spec fn recipe_fails(d: RecipeDto, buildings: Seq<Building>, e: Error) -> bool {
    if first_building(buildings, d.building@) is None {
        e matches Error::UnknownBuilding(s) && s@ == d.building@
    } else {
        e matches Error::UnknownItem(_)
    }
}

/// Negative counts read as 0.
pub open spec fn spec_to_u32(v: i32) -> u32 {
    if v <= 0 {
        0
    } else {
        v as u32
    }
}

fn to_u32(value: i32) -> (r: u32)
    ensures
        r == spec_to_u32(value),
{
    if value <= 0 {
        0
    } else {
        value as u32
    }
}

/// The id under which the extractor named `name` is filed: "miner" stands for "miner_mk1".
pub open spec fn extractor_id(name: Seq<char>) -> Seq<char> {
    if name == "miner"@ {
        "miner_mk1"@
    } else {
        name
    }
}

/// The first building of `buildings` with id `id`, if any.
pub open spec fn first_building(buildings: Seq<Building>, id: Seq<char>) -> Option<int> {
    if exists|k: int| 0 <= k < buildings.len() && buildings[k].spec_id() == id {
        Some(
            choose|k: int|
                0 <= k < buildings.len() && buildings[k].spec_id() == id && forall|j: int|
                    0 <= j < k ==> buildings[j].spec_id() != id,
        )
    } else {
        None
    }
}

fn find_building(buildings: &Vec<Building>, id: &String) -> (r: Option<usize>)
    ensures
        match r {
            Some(k) => first_building(buildings@, id@) == Some(k as int) && k < buildings@.len(),
            None => first_building(buildings@, id@) is None,
        },
{
    let mut i: usize = 0;
    while i < buildings.len()
        invariant
            i <= buildings@.len(),
            forall|j: int| 0 <= j < i ==> buildings@[j].spec_id() != id@,
        decreases buildings@.len() - i,
    {
        if *buildings[i].id_string() == *id {
            let ghost k = choose|k: int|
                0 <= k < buildings@.len() && buildings@[k].spec_id() == id@ && forall|j: int|
                    0 <= j < k ==> buildings@[j].spec_id() != id@;
            proof {
                assert(0 <= i && i < buildings@.len() && buildings@[i as int].spec_id() == id@ && forall|j: int|
                    0 <= j < i ==> buildings@[j].spec_id() != id@);
            }
            return Some(i);
        }
        i = i + 1;
    }
    None
}

impl BuildingDto {
    pub open spec fn spec_building(&self) -> Building {
        match self {
            BuildingDto::Extractor(e) => Building::Extractor(
                Extractor { id: e.id, kind: e.kind, power_usage: e.power_usage, normal_extraction_rate: e.normal_extraction_rate },
            ),
            BuildingDto::Processor(p) => Building::Processor(
                Processor { id: p.id, kind: p.kind, power_usage: p.power_usage },
            ),
        }
    }

    pub fn create_building(&self) -> (r: Building)
        ensures
            r == self.spec_building(),
    {
        match self {
            BuildingDto::Extractor(e) => Building::Extractor(
                Extractor::new(e.id.clone(), e.kind.clone(), e.power_usage, e.normal_extraction_rate),
            ),
            BuildingDto::Processor(p) => Building::Processor(
                Processor::new(p.id.clone(), p.kind.clone(), p.power_usage),
            ),
        }
    }
}

impl ResourceDto {
    /// The nodes of the resource; none when all counts are 0 or less.
    pub open spec fn spec_nodes(&self) -> Option<Nodes> {
        if spec_to_u32(self.impure) == 0 && spec_to_u32(self.normal) == 0 && spec_to_u32(self.pure) == 0 {
            None
        } else {
            Some(Nodes { impure: spec_to_u32(self.impure), normal: spec_to_u32(self.normal), pure: spec_to_u32(self.pure) })
        }
    }
}

impl ItemDto {
    /// What `create_item` gives: a product as is; a resource with its extractor, or
    /// an error naming the extractor when it is missing or is no extractor.
    pub open spec fn item_from(&self, buildings: Seq<Building>, r: Result<Item, Error>) -> bool {
        match self {
            ItemDto::Product(p) => r == Ok::<Item, Error>(Item::Product(Product { id: p.id })),
            ItemDto::Resource(res) => match first_building(buildings, extractor_id(res.extractor@)) {
                None => r matches Err(Error::UnknownBuilding(s)) && s@ == res.extractor@,
                Some(k) => match buildings[k] {
                    Building::Extractor(e) => r == Ok::<Item, Error>(
                        Item::Resource(Resource { id: res.id, extractor: e, nodes: res.spec_nodes() }),
                    ),
                    Building::Processor(_) => r matches Err(Error::InvalidBuilding(s)) && s@ == res.extractor@,
                },
            },
        }
    }

    pub fn create_item(&self, buildings: &Vec<Building>) -> (r: Result<Item, Error>)
        ensures
            self.item_from(buildings@, r),
    {
        match self {
            ItemDto::Product(p) => {
                let id = p.id.clone();
                assert(id == p.id);
                Ok(Item::Product(Product { id }))
            },
            ItemDto::Resource(res) => {
                proof {
                    reveal_strlit("miner");
                    reveal_strlit("miner_mk1");
                }
                let miner: String = "miner".to_owned();
                let id: String = if res.extractor == miner {
                    "miner_mk1".to_owned()
                } else {
                    res.extractor.clone()
                };
                match find_building(buildings, &id) {
                    None => Err(Error::UnknownBuilding(res.extractor.clone())),
                    Some(k) => match &buildings[k] {
                        Building::Extractor(e) => {
                            let impure = to_u32(res.impure);
                            let normal = to_u32(res.normal);
                            let pure = to_u32(res.pure);
                            let nodes = if impure == 0 && normal == 0 && pure == 0 {
                                None
                            } else {
                                Some(Nodes::new(impure, normal, pure))
                            };
                            Ok(Item::Resource(Resource::new(res.id.clone(), e.duplicate(), nodes)))
                        },
                        Building::Processor(_) => Err(Error::InvalidBuilding(res.extractor.clone())),
                    },
                }
            },
        }
    }
}

/// The id of an item of the file.
pub open spec fn dto_id(d: ItemDto) -> Seq<char> {
    match d {
        ItemDto::Resource(r) => r.id@,
        ItemDto::Product(p) => p.id@,
    }
}

/// `it` is what the last of the first `n` entries of `dtos` with its id makes.
pub open spec fn last_source(dtos: Seq<ItemDto>, bs: Seq<Building>, n: int, it: Item) -> bool {
    exists|k: int|
        0 <= k < n && (#[trigger] dtos[k]).item_from(bs, Ok(it)) && (forall|k2: int|
            k < k2 < n ==> dto_id(#[trigger] dtos[k2]) != dto_id(dtos[k]))
}

/// `items` holds, once per id, the item that the last of the first `n` entries of
/// `dtos` with that id makes; a later entry for an id replaces an earlier one.
pub open spec fn filed(items: Seq<Item>, dtos: Seq<ItemDto>, bs: Seq<Building>, n: int) -> bool {
    &&& distinct_item_ids(items)
    &&& forall|a: int| 0 <= a < items.len() ==> last_source(dtos, bs, n, #[trigger] items[a])
    &&& forall|k: int| 0 <= k < n ==> has_id(items, dto_id(#[trigger] dtos[k]))
}

proof fn lemma_item_from_id(d: ItemDto, bs: Seq<Building>, it: Item)
    requires
        d.item_from(bs, Ok(it)),
    ensures
        it.spec_id() == dto_id(d),
{
}

fn position_of_id(items: &Vec<Item>, item: &Item) -> (r: Option<usize>)
    ensures
        match r {
            Some(j) => j < items@.len() && items@[j as int].spec_id() == item.spec_id(),
            None => forall|j: int| 0 <= j < items@.len() ==> items@[j].spec_id() != item.spec_id(),
        },
{
    let mut j: usize = 0;
    while j < items.len()
        invariant
            j <= items@.len(),
            forall|b: int| 0 <= b < j ==> items@[b].spec_id() != item.spec_id(),
        decreases items@.len() - j,
    {
        if items[j].same_id(item) {
            return Some(j);
        }
        j = j + 1;
    }
    None
}

/// Files the item that entry `k` makes: it replaces the item with the same id, if any.
#[verifier::rlimit(40)]
fn file_item(items: Vec<Item>, item: Item, Ghost(dtos): Ghost<Seq<ItemDto>>, Ghost(bs): Ghost<Seq<Building>>, Ghost(k): Ghost<int>) -> (out: Vec<Item>)
    requires
        0 <= k < dtos.len(),
        filed(items@, dtos, bs, k),
        dtos[k].item_from(bs, Ok(item)),
    ensures
        filed(out@, dtos, bs, k + 1),
{
    let mut items = items;
    let ghost before = items@;
    proof {
        lemma_item_from_id(dtos[k], bs, item);
    }
    match position_of_id(&items, &item) {
        Some(j) => {
            items.set(j, item);
            proof {
                assert forall|a: int, b: int| 0 <= a < b < items@.len() implies (#[trigger] items@[a]).spec_id()
                    != (#[trigger] items@[b]).spec_id() by {
                    assert(before[a].spec_id() != before[b].spec_id());
                }
                assert forall|a: int| 0 <= a < items@.len() implies last_source(dtos, bs, k + 1, #[trigger] items@[a]) by {
                    if a == j {
                        assert(dtos[k].item_from(bs, Ok(items@[a])));
                        assert(last_source(dtos, bs, k + 1, items@[a]));
                    } else {
                        assert(last_source(dtos, bs, k, before[a]));
                        let k1 = choose|k1: int|
                            0 <= k1 < k && (#[trigger] dtos[k1]).item_from(bs, Ok(before[a])) && (forall|k2: int|
                                k1 < k2 < k ==> dto_id(#[trigger] dtos[k2]) != dto_id(dtos[k1]));
                        lemma_item_from_id(dtos[k1], bs, before[a]);
                        assert(before[a].spec_id() != before[j as int].spec_id());
                        assert(items@[a] == before[a]);
                        assert forall|k2: int| k1 < k2 < k + 1 implies dto_id(#[trigger] dtos[k2]) != dto_id(dtos[k1]) by {
                            if k2 == k {
                                assert(dto_id(dtos[k2]) == before[j as int].spec_id());
                            }
                        }
                    }
                }
                assert forall|k1: int| 0 <= k1 < k + 1 implies has_id(items@, dto_id(#[trigger] dtos[k1])) by {
                    if k1 < k {
                        assert(has_id(before, dto_id(dtos[k1])));
                        let a = choose|a: int| 0 <= a < before.len() && #[trigger] before[a].spec_id() == dto_id(dtos[k1]);
                        if a == j {
                            assert(items@[a].spec_id() == dto_id(dtos[k1]));
                        } else {
                            assert(items@[a] == before[a]);
                        }
                    } else {
                        assert(items@[j as int].spec_id() == dto_id(dtos[k1]));
                    }
                }
            }
        },
        None => {
            items.push(item);
            proof {
                let n = before.len() as int;
                assert forall|a: int, b: int| 0 <= a < b < items@.len() implies (#[trigger] items@[a]).spec_id()
                    != (#[trigger] items@[b]).spec_id() by {
                    assert(items@[a] == before[a]);
                    if b < n {
                        assert(items@[b] == before[b]);
                    }
                }
                assert forall|a: int| 0 <= a < items@.len() implies last_source(dtos, bs, k + 1, #[trigger] items@[a]) by {
                    if a == n {
                        assert(dtos[k].item_from(bs, Ok(items@[a])));
                        assert(last_source(dtos, bs, k + 1, items@[a]));
                    } else {
                        assert(last_source(dtos, bs, k, before[a]));
                        let k1 = choose|k1: int|
                            0 <= k1 < k && (#[trigger] dtos[k1]).item_from(bs, Ok(before[a])) && (forall|k2: int|
                                k1 < k2 < k ==> dto_id(#[trigger] dtos[k2]) != dto_id(dtos[k1]));
                        lemma_item_from_id(dtos[k1], bs, before[a]);
                        assert(items@[a] == before[a]);
                        assert forall|k2: int| k1 < k2 < k + 1 implies dto_id(#[trigger] dtos[k2]) != dto_id(dtos[k1]) by {
                            if k2 == k {
                                assert(before[a].spec_id() != item.spec_id());
                            }
                        }
                    }
                }
                assert forall|k1: int| 0 <= k1 < k + 1 implies has_id(items@, dto_id(#[trigger] dtos[k1])) by {
                    if k1 < k {
                        assert(has_id(before, dto_id(dtos[k1])));
                        let a = choose|a: int| 0 <= a < before.len() && #[trigger] before[a].spec_id() == dto_id(dtos[k1]);
                        assert(items@[a] == before[a]);
                    } else {
                        assert(items@[n].spec_id() == dto_id(dtos[k1]));
                    }
                }
            }
        },
    }

    items
}

/// The resolved buildings and items of a catalog file.
pub struct Factory {
    pub items: Vec<Item>,
    pub buildings: Vec<Building>,
}

impl Factory {
    /// Resolves the buildings, then the items against them; the first item that fails
    /// gives the error.
    pub fn create(book: &BookDto) -> (r: Result<Self, Error>)
        ensures
            match r {
                Ok(f) => f.buildings@.len() == book.buildings@.len() && (forall|k: int|
                    0 <= k < book.buildings@.len() ==> f.buildings@[k] == (#[trigger] book.buildings@[k]).spec_building())
                    && filed(f.items@, book.items@, f.buildings@, book.items@.len() as int),
                Err(e) => exists|k: int|
                    0 <= k < book.items@.len() && (#[trigger] book.items@[k]).item_from(
                        book.spec_buildings(),
                        Err(e),
                    ),
            },
    {
        let mut buildings: Vec<Building> = Vec::new();
        let mut k: usize = 0;
        while k < book.buildings.len()
            invariant
                k <= book.buildings@.len(),
                buildings@.len() == k,
                forall|j: int| 0 <= j < k ==> buildings@[j] == (#[trigger] book.buildings@[j]).spec_building(),
            decreases book.buildings@.len() - k,
        {
            buildings.push(book.buildings[k].create_building());
            k = k + 1;
        }
        assert(buildings@ =~= book.spec_buildings());
        let mut items: Vec<Item> = Vec::new();
        let mut k: usize = 0;
        while k < book.items.len()
            invariant
                buildings@ == book.spec_buildings(),
                k <= book.items@.len(),
                filed(items@, book.items@, buildings@, k as int),
            decreases book.items@.len() - k,
        {
            match book.items[k].create_item(&buildings) {
                Ok(item) => {
                    items = file_item(items, item, Ghost(book.items@), Ghost(buildings@), Ghost(k as int));
                },
                Err(e) => {
                    return Err(e);
                },
            }
            k = k + 1;
        }
        Ok(Factory { items, buildings })
    }

    pub fn into_items(self) -> (r: Vec<Item>)
        ensures
            r@ == self.items@,
    {
        self.items
    }

    /// The first building with id `building_id`.
    pub fn building(&self, building_id: &String) -> (r: Result<Building, Error>)
        ensures
            match first_building(self.buildings@, building_id@) {
                Some(k) => r == Ok::<Building, Error>(self.buildings@[k]),
                None => r matches Err(Error::UnknownBuilding(s)) && s@ == building_id@,
            },
    {
        match find_building(&self.buildings, building_id) {
            Some(k) => Ok(self.buildings[k].duplicate()),
            None => Err(Error::UnknownBuilding(building_id.clone())),
        }
    }

    /// The first item with id `item_id`.
    pub fn item(&self, item_id: &String) -> (r: Result<Item, Error>)
        ensures
            match first_with_id(self.items@, item_id@) {
                Some(k) => r == Ok::<Item, Error>(self.items@[k]),
                None => r matches Err(Error::UnknownItem(s)) && s@ == item_id@,
            },
    {
        match crate::book::find_item(&self.items, item_id.as_str()) {
            Ok(item) => Ok(item.duplicate()),
            Err(e) => Err(e),
        }
    }

    pub fn convert_reactant(&self, reactant: &ReactantDto) -> (r: Result<Reactant, Error>)
        ensures
            match first_with_id(self.items@, reactant.item_id@) {
                Some(k) => r matches Ok(x) && x.item == self.items@[k] && x.quantity == reactant.quantity,
                None => r matches Err(Error::UnknownItem(s)) && s@ == reactant.item_id@,
            },
    {
        match self.item(&reactant.item_id) {
            Ok(item) => Ok(Reactant::new(item, reactant.quantity)),
            Err(e) => Err(e),
        }
    }

    /// The reactants with their items resolved; the first unknown item gives the error.
    fn convert_reactants(&self, rs: &Vec<ReactantDto>) -> (r: Result<Vec<Reactant>, Error>)
        ensures
            match r {
                Ok(v) => v@.len() == rs@.len() && forall|k: int|
                    0 <= k < rs@.len() ==> resolves_to(self.items@, (#[trigger] rs@[k]).item_id@, v@[k].item)
                        && v@[k].quantity == rs@[k].quantity,
                Err(e) => e matches Error::UnknownItem(s) && exists|k: int|
                    0 <= k < rs@.len() && first_with_id(self.items@, (#[trigger] rs@[k]).item_id@) is None
                        && s@ == rs@[k].item_id@,
            },
            r is Ok <==> forall|k: int| 0 <= k < rs@.len() ==> first_with_id(self.items@, (#[trigger] rs@[k]).item_id@) is Some,
    {
        let mut v: Vec<Reactant> = Vec::new();
        let mut k: usize = 0;
        while k < rs.len()
            invariant
                k <= rs@.len(),
                v@.len() == k,
                forall|j: int|
                    0 <= j < k ==> resolves_to(self.items@, (#[trigger] rs@[j]).item_id@, v@[j].item)
                        && v@[j].quantity == rs@[j].quantity,
            decreases rs@.len() - k,
        {
            match self.convert_reactant(&rs[k]) {
                Ok(x) => {
                    v.push(x);
                },
                Err(e) => {
                    return Err(e);
                },
            }
            k = k + 1;
        }
        Ok(v)
    }

    /// The recipe with its building and reactants resolved: an unknown building is
    /// reported first, then the first unknown input, then the first unknown output.
    pub fn convert_recipe(&self, recipe: &RecipeDto) -> (r: Result<Recipe, Error>)
        ensures
            match r {
                Ok(x) => recipe_from(*recipe, self.items@, self.buildings@, x),
                Err(e) => recipe_fails(*recipe, self.buildings@, e),
            },
            r is Ok <==> recipe_resolves(*recipe, self.items@, self.buildings@),
    {
        let building = match self.building(&recipe.building) {
            Ok(b) => b,
            Err(e) => {
                return Err(e);
            },
        };
        let inputs = match self.convert_reactants(&recipe.inputs) {
            Ok(v) => v,
            Err(e) => {
                return Err(e);
            },
        };
        let outputs = match self.convert_reactants(&recipe.outputs) {
            Ok(v) => v,
            Err(e) => {
                return Err(e);
            },
        };
        Ok(Recipe::new(recipe.id.clone(), recipe.duration, building, recipe.alternate, inputs, outputs))
    }
}

impl BookDto {
    /// The buildings of the file, resolved.
    pub open spec fn spec_buildings(&self) -> Seq<Building> {
        self.buildings@.map_values(|b: BuildingDto| b.spec_building())
    }

    /// The catalog: items and buildings resolved, every recipe converted, and the
    /// recipes sorted by ascending complexity.
    pub fn to_full_book(&self) -> (r: Result<FullBook, Error>)
        ensures
            ({
                let buildings = self.spec_buildings();
                match r {
                    Ok(b) => b.book_wf() && filed(b.items@, self.items@, buildings, self.items@.len() as int)
                        && exists|converted: Seq<Recipe>|
                        converted.len() == self.recipes@.len() && (forall|k: int|
                            0 <= k < converted.len() ==> recipe_from(
                                #[trigger] self.recipes@[k],
                                b.items@,
                                buildings,
                                converted[k],
                            )) && #[trigger] crate::complexity::sorted_recipes(b.recipes@, converted),
                    Err(e) => (exists|k: int|
                        0 <= k < self.items@.len() && (#[trigger] self.items@[k]).item_from(buildings, Err(e)))
                        || exists|k: int|
                        0 <= k < self.recipes@.len() && recipe_fails(#[trigger] self.recipes@[k], buildings, e),
                }
            }),
    {
        let factory = match Factory::create(self) {
            Ok(f) => f,
            Err(e) => {
                return Err(e);
            },
        };
        let ghost buildings = self.spec_buildings();
        assert(factory.buildings@ =~= buildings);
        let mut recipes: Vec<Recipe> = Vec::new();
        let mut k: usize = 0;
        while k < self.recipes.len()
            invariant
                k <= self.recipes@.len(),
                recipes@.len() == k,
                factory.buildings@ == buildings,
                buildings == self.spec_buildings(),
                filed(factory.items@, self.items@, buildings, self.items@.len() as int),
                forall|j: int|
                    0 <= j < k ==> recipe_from(#[trigger] self.recipes@[j], factory.items@, buildings, recipes@[j]),
            decreases self.recipes@.len() - k,
        {
            match factory.convert_recipe(&self.recipes[k]) {
                Ok(r) => {
                    recipes.push(r);
                },
                Err(e) => {
                    assert(recipe_fails(self.recipes@[k as int], buildings, e));
                    return Err(e);
                },
            }
            k = k + 1;
        }
        let sorted = crate::complexity::sort_recipes(recipes.as_slice());
        let ghost converted = recipes@;
        let ghost fitems = factory.items@;
        let full = FullBook::new(factory.into_items(), sorted);
        assert(crate::complexity::sorted_recipes(full.recipes@, converted));
        assert(full.items@ == fitems);
        assert(forall|j: int| 0 <= j < converted.len() ==> recipe_from(#[trigger] self.recipes@[j], full.items@, buildings, converted[j]));
        assert(filed(full.items@, self.items@, buildings, self.items@.len() as int));
        assert(converted.len() == self.recipes@.len());
        assert(buildings == self.spec_buildings());
        Ok(full)
    }
}

} // verus!
