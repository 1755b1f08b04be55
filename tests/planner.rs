use factory_bom::bom::{Bom, UNITS_PER_ITEM};
use factory_bom::bom_graph::{Graph, ItemType, Node};
use factory_bom::book::{Book, FilterableBook, FullBook};
use factory_bom::building::{Building, Extractor, Processor};
use factory_bom::complexity::{compute_complexity, sort_recipes};
use factory_bom::error::{Error, LpFailure};
use factory_bom::item::{Item, Nodes, Product, Resource};
use factory_bom::problem::{Factory, Problem, Relation};
use factory_bom::problem_input::ProblemInput;
use factory_bom::reactant::Reactant;
use factory_bom::recipe::Recipe;
use factory_bom::recipe_filter::RecipeFilter;
use good_lp::{variable, Expression, ProblemVariables, ResolutionError, Solution, SolverModel};

const U: i128 = UNITS_PER_ITEM as i128;

fn smelter() -> Building {
    Building::Processor(Processor::new("smelter".to_string(), "smelter".to_string(), 4))
}

fn constructor() -> Building {
    Building::Processor(Processor::new("constructor".to_string(), "constructor".to_string(), 4))
}

fn miner() -> Extractor {
    Extractor::new("miner_mk1".to_string(), "miner".to_string(), 5, 60)
}

fn resource(id: &str, nodes: Option<Nodes>) -> Item {
    Item::Resource(Resource::new(id.to_string(), miner(), nodes))
}

fn product(id: &str) -> Item {
    Item::Product(Product::new(id.to_string()))
}

fn recipe(id: &str, duration: u32, building: Building, alternate: bool, inputs: Vec<(&Item, u32)>, outputs: Vec<(&Item, u32)>) -> Recipe {
    Recipe::new(
        id.to_string(),
        duration,
        building,
        alternate,
        inputs.into_iter().map(|(i, q)| Reactant::new(i.clone(), q)).collect(),
        outputs.into_iter().map(|(i, q)| Reactant::new(i.clone(), q)).collect(),
    )
}

fn input(targets: Vec<(&str, u32)>, available: Vec<(&str, u32)>, use_abundances: bool, filter: RecipeFilter) -> ProblemInput {
    ProblemInput {
        target_items: targets.into_iter().map(|(s, q)| (s.to_string(), q)).collect(),
        available_items: available.into_iter().map(|(s, q)| (s.to_string(), q)).collect(),
        use_abundances,
        filter,
    }
}

/// Solves the linear program with good_lp and returns the runs per minute in units.
fn solve(p: &Problem) -> Result<Vec<u64>, ResolutionError> {
    let mut vars = ProblemVariables::new();
    let xs: Vec<_> = p.recipes.iter().map(|_| vars.add(variable().min(0))).collect();
    let balance = |i: usize| -> Expression {
        let mut e = Expression::from(p.stock[i].unwrap_or(0) as f64);
        for (r, x) in xs.iter().enumerate() {
            e += (p.coefficients[i][r] as f64) * *x;
        }
        e
    };
    let mut objective = Expression::from(0.0);
    for x in &xs {
        objective += *x;
    }
    for t in &p.objective {
        objective -= balance(t.item) * (t.numerator as f64 / t.denominator as f64);
    }
    let mut model = vars.minimise(objective).using(good_lp::default_solver);
    for c in &p.constraints {
        let e = balance(c.item);
        let b = c.bound as f64;
        model = model.with(match c.relation {
            Relation::AtMost => e.leq(b),
            Relation::AtLeast => e.geq(b),
            Relation::Exactly => e.eq(b),
        });
    }
    let solution = model.solve()?;
    Ok(xs.iter().map(|x| (solution.value(*x) * UNITS_PER_ITEM as f64).round().max(0.0) as u64).collect())
}

fn optimize(book: &FullBook, input: &ProblemInput) -> Result<Bom, Error> {
    let filtered = book.filter(&input.filter)?;
    let problem = Factory::create_problem(input, &filtered)?;
    let x = solve(&problem).map_err(|_| Error::ResolutionFailed(LpFailure::Infeasible))?;
    problem.checked_bom(&x)
}

fn amount_of(entries: &[(Item, i128)], id: &str) -> Option<i128> {
    entries.iter().find(|(i, _)| i.id() == id).map(|(_, a)| *a)
}

fn iron_book(extra: Vec<Recipe>) -> FullBook {
    let ore = resource("iron_ore", Some(Nodes::new(0, 1, 0)));
    let ingot = product("iron_ingot");
    let mut recipes = vec![recipe("_iron_ingot", 2, smelter(), false, vec![(&ore, 1)], vec![(&ingot, 1)])];
    recipes.extend(extra);
    FullBook::new(vec![ore, ingot, product("iron_plate"), product("iron_rod"), product("screw")], recipes)
}

fn close(a: i128, b: i128) -> bool {
    (a - b).abs() < 1_000
}

#[test]
fn test_complexity() {
    let ore = resource("iron_ore", Some(Nodes::new(1, 1, 1)));
    let ingot = product("iron_ingot");
    let plate = product("iron_plate");
    let rod = product("iron_rod");
    let screw = product("screw");
    let recipes = vec![
        recipe("_iron_ingot", 2, smelter(), false, vec![(&ore, 1)], vec![(&ingot, 1)]),
        recipe("_iron_plate", 6, constructor(), false, vec![(&ingot, 3)], vec![(&plate, 2)]),
        recipe("_iron_rod", 4, constructor(), false, vec![(&ingot, 1)], vec![(&rod, 1)]),
        recipe("_screw", 6, constructor(), false, vec![(&rod, 1)], vec![(&screw, 4)]),
    ];
    let complexities = compute_complexity(&recipes);
    let of = |id: &str| recipes.iter().position(|r| r.id() == id).map(|i| complexities[i]);
    assert_eq!(of("_iron_plate"), Some(1));
    assert_eq!(of("_iron_rod"), Some(1));
    assert_eq!(of("_screw"), Some(2));
}

#[test]
fn complexity_sort_keeps_ties_in_order() {
    let ore = resource("iron_ore", None);
    let ingot = product("iron_ingot");
    let rod = product("iron_rod");
    let screw = product("screw");
    let recipes = vec![
        recipe("_screw", 6, constructor(), false, vec![(&rod, 1)], vec![(&screw, 4)]),
        recipe("_iron_rod", 4, constructor(), false, vec![(&ingot, 1)], vec![(&rod, 1)]),
        recipe("_iron_ingot", 2, smelter(), false, vec![(&ore, 1)], vec![(&ingot, 1)]),
        recipe("_ingot_b", 2, smelter(), true, vec![(&ore, 2)], vec![(&ingot, 3)]),
    ];
    let sorted = sort_recipes(&recipes);
    let ids: Vec<&str> = sorted.iter().map(|r| r.id()).collect();
    assert_eq!(ids, vec!["_iron_ingot", "_ingot_b", "_iron_rod", "_screw"]);
}

#[test]
fn complexity_of_a_cycle_is_finite() {
    let a = product("a");
    let b = product("b");
    let recipes = vec![
        recipe("_a", 1, smelter(), false, vec![(&b, 1)], vec![(&a, 1)]),
        recipe("_b", 1, smelter(), false, vec![(&a, 1)], vec![(&b, 1)]),
    ];
    let c = compute_complexity(&recipes);
    assert_eq!(c.len(), 2);
    assert!(c[0] <= 2 && c[1] <= 2);
}

#[test]
fn one_step_production() {
    let book = iron_book(vec![]);
    let bom = optimize(&book, &input(vec![("iron_ingot", 30)], vec![], true, RecipeFilter::AllRecipes)).unwrap();
    assert_eq!(bom.recipes.len(), 1);
    assert_eq!(bom.recipes[0].0.id(), "_iron_ingot");
    assert!(close(bom.recipes[0].1 as i128, 30 * U));
    assert!(close(amount_of(&bom.requirements, "iron_ore").unwrap(), 30 * U));
    assert!(close(amount_of(&bom.targets, "iron_ingot").unwrap(), 30 * U));
    assert!(bom.leftovers.is_empty());
    assert_eq!(bom.buildings.len(), 1);
    assert_eq!(bom.buildings[0].0.id(), "smelter");
    assert_eq!(bom.buildings[0].1, 1);
    assert_eq!(bom.total_power(), Some(4));
}

#[test]
fn cheaper_route_is_chosen() {
    let ore = resource("iron_ore", Some(Nodes::new(0, 1, 0)));
    let ingot = product("iron_ingot");
    let alt = recipe("_alt_ingot", 4, smelter(), true, vec![(&ore, 1)], vec![(&ingot, 2)]);
    let book = iron_book(vec![alt]);
    let bom = optimize(&book, &input(vec![("iron_ingot", 30)], vec![], false, RecipeFilter::AllRecipes)).unwrap();
    assert_eq!(bom.recipes.len(), 1);
    assert_eq!(bom.recipes[0].0.id(), "_alt_ingot");
    assert!(close(bom.recipes[0].1 as i128, 15 * U));
    assert!(close(amount_of(&bom.requirements, "iron_ore").unwrap(), 15 * U));
}

#[test]
fn cap_forces_a_mix() {
    let ore_a = resource("ore_a", Some(Nodes::new(1, 0, 0)));
    let ore_b = resource("ore_b", Some(Nodes::new(0, 1, 0)));
    let widget = product("widget");
    let recipes = vec![
        recipe("_from_a", 1, smelter(), false, vec![(&ore_a, 1)], vec![(&widget, 1)]),
        recipe("_from_b", 1, smelter(), false, vec![(&ore_b, 1)], vec![(&widget, 1)]),
    ];
    let book = FullBook::new(vec![ore_a, ore_b, widget], recipes);
    let bom = optimize(&book, &input(vec![("widget", 700)], vec![], true, RecipeFilter::AllRecipes)).unwrap();
    assert!(close(amount_of(&bom.requirements, "ore_b").unwrap(), 600 * U));
    assert!(close(amount_of(&bom.requirements, "ore_a").unwrap(), 100 * U));
    assert!(close(amount_of(&bom.targets, "widget").unwrap(), 700 * U));
}

#[test]
fn stock_at_hand_offsets_production() {
    let ingot = product("iron_ingot");
    let plate = product("iron_plate");
    let plate_recipe = recipe("_plate", 1, constructor(), false, vec![(&ingot, 3)], vec![(&plate, 2)]);
    let book = iron_book(vec![plate_recipe]);
    let bom = optimize(&book, &input(vec![("iron_plate", 60)], vec![("iron_ingot", 120)], true, RecipeFilter::AllRecipes)).unwrap();
    let x_plate = bom.recipes.iter().find(|(r, _)| r.id() == "_plate").map(|(_, x)| *x as i128).unwrap();
    assert!(close(x_plate, 30 * U));
    assert_eq!(amount_of(&bom.requirements, "iron_ore"), None);
    assert_eq!(amount_of(&bom.requirements, "iron_ingot"), None);
    assert_eq!(amount_of(&bom.available_items, "iron_ingot"), Some(120 * U));
    assert!(close(amount_of(&bom.targets, "iron_plate").unwrap(), 60 * U));
}

#[test]
fn infeasible_target_fails() {
    let ingot = product("iron_ingot");
    let plate = product("iron_plate");
    let plate_recipe = recipe("_plate", 1, constructor(), false, vec![(&ingot, 3)], vec![(&plate, 2)]);
    let book = iron_book(vec![plate_recipe]);
    let request = input(vec![("iron_plate", 60)], vec![], true, RecipeFilter::NotNamed("_plate".to_string()));
    let filtered = book.filter(&request.filter).unwrap();
    let problem = Factory::create_problem(&request, &filtered).unwrap();
    assert!(solve(&problem).is_err());
    assert!(matches!(optimize(&book, &request), Err(Error::ResolutionFailed(_))));
}

#[test]
fn graph_nodes_are_deduplicated() {
    let book = iron_book(vec![]);
    let bom = optimize(&book, &input(vec![("iron_ingot", 30)], vec![], true, RecipeFilter::AllRecipes)).unwrap();
    let graph = Graph::new(&bom).unwrap();
    assert_eq!(graph.nodes.len(), 3);
    assert_eq!(graph.edges.len(), 2);
    let index = |id: &str, ty: ItemType| graph.nodes.iter().position(|n| matches!(n, Node::Item(i, _, t) if i.id() == id && *t == ty)).unwrap();
    let recipe_node = graph.nodes.iter().position(|n| matches!(n, Node::Recipe(r, _) if r.id() == "_iron_ingot")).unwrap();
    let requirement = index("iron_ore", ItemType::Requirement);
    let target = index("iron_ingot", ItemType::Target);
    assert!(graph.edges.contains(&(requirement, recipe_node)));
    assert!(graph.edges.contains(&(recipe_node, target)));
    assert!(matches!(graph.nodes[recipe_node], Node::Recipe(_, x) if close(x as i128, 30 * U)));
    for k in 0..graph.edges.len() {
        assert_eq!(graph.edge_flow(k), None);
    }
}

#[test]
fn edge_flow_is_labelled_when_it_differs() {
    let ore = resource("iron_ore", None);
    let ingot = product("iron_ingot");
    let r = recipe("_iron_ingot", 2, smelter(), false, vec![(&ore, 1)], vec![(&ingot, 2)]);
    // 10 runs make 20 ingots: 5 are asked for and 15 are left over.
    let bom = Bom::new(
        vec![(ingot.clone(), 5 * U)],
        vec![],
        vec![(ore.clone(), 10 * U)],
        vec![(ingot.clone(), 15 * U)],
        vec![(r, 10 * UNITS_PER_ITEM)],
    );
    let graph = Graph::new(&bom).unwrap();
    let inter = graph.nodes.iter().position(|n| matches!(n, Node::Item(i, _, ItemType::Intermediate) if i.id() == "iron_ingot")).unwrap();
    assert!(matches!(graph.nodes[inter], Node::Item(_, a, _) if a == 20 * U));
    let recipe_node = graph.nodes.iter().position(|n| matches!(n, Node::Recipe(..))).unwrap();
    let k = graph.edges.iter().position(|e| *e == (recipe_node, inter)).unwrap();
    assert_eq!(graph.edge_flow(k), None);
    let target = graph.nodes.iter().position(|n| matches!(n, Node::Item(_, _, ItemType::Target))).unwrap();
    let k = graph.edges.iter().position(|e| *e == (inter, target)).unwrap();
    assert_eq!(graph.edge_flow(k), None);
}

#[test]
fn unused_product_with_target_and_leftover() {
    let ore = resource("iron_ore", None);
    let ingot = product("iron_ingot");
    let r = recipe("_iron_ingot", 2, smelter(), false, vec![(&ore, 1)], vec![(&ingot, 1)]);
    let bom = Bom::new(
        vec![(ingot.clone(), 3 * U)],
        vec![],
        vec![(ore.clone(), 10 * U)],
        vec![(ingot.clone(), 4 * U)],
        vec![(r, 10 * UNITS_PER_ITEM)],
    );
    let graph = Graph::new(&bom).unwrap();
    let inter = graph.nodes.iter().position(|n| matches!(n, Node::Item(i, _, ItemType::Intermediate) if i.id() == "iron_ingot")).unwrap();
    assert!(matches!(graph.nodes[inter], Node::Item(_, a, _) if a == 7 * U));
    let recipe_node = graph.nodes.iter().position(|n| matches!(n, Node::Recipe(..))).unwrap();
    let k = graph.edges.iter().position(|e| *e == (recipe_node, inter)).unwrap();
    assert_eq!(graph.edge_flow(k), Some(10 * U));
}

#[test]
fn buildings_are_rounded_up_and_summed() {
    let ore = resource("iron_ore", None);
    let ingot = product("iron_ingot");
    let a = recipe("_a", 2, smelter(), false, vec![(&ore, 1)], vec![(&ingot, 1)]);
    let b = recipe("_b", 4, smelter(), false, vec![(&ore, 1)], vec![(&ingot, 2)]);
    // 31 runs per minute of a 2 s recipe need 31 / 30 buildings, rounded up to 2;
    // 10 runs of a 4 s recipe need 10 / 15, rounded up to 1.
    let bom = Bom::new(vec![], vec![], vec![], vec![], vec![(a, 31 * UNITS_PER_ITEM), (b, 10 * UNITS_PER_ITEM)]);
    assert_eq!(bom.buildings.len(), 1);
    assert_eq!(bom.buildings[0].1, 3);
}

#[test]
fn no_dust_in_bill_of_materials() {
    let book = iron_book(vec![]);
    let filtered = book.filter(&RecipeFilter::AllRecipes).unwrap();
    let request = input(vec![("iron_ingot", 30)], vec![], true, RecipeFilter::AllRecipes);
    let problem = Factory::create_problem(&request, &filtered).unwrap();
    let bom = problem.create_bom(&vec![999]).unwrap();
    assert!(bom.recipes.is_empty());
    let bom = problem.create_bom(&vec![1_000]).unwrap();
    assert_eq!(bom.recipes.len(), 1);
}

#[test]
fn balance_of_every_item_is_nil() {
    let book = iron_book(vec![]);
    let filtered = book.filter(&RecipeFilter::AllRecipes).unwrap();
    let request = input(vec![("iron_ingot", 30)], vec![], true, RecipeFilter::AllRecipes);
    let problem = Factory::create_problem(&request, &filtered).unwrap();
    let x = vec![30 * UNITS_PER_ITEM];
    let bom = problem.create_bom(&x).unwrap();
    for (i, item) in problem.items.iter().enumerate() {
        let mut net: i128 = problem.stock[i].unwrap_or(0) as i128 * U;
        for r in 0..x.len() {
            net += problem.coefficients[i][r] * x[r] as i128;
        }
        let t = amount_of(&bom.targets, item.id()).unwrap_or(0);
        let l = amount_of(&bom.leftovers, item.id()).unwrap_or(0);
        let q = amount_of(&bom.requirements, item.id()).unwrap_or(0);
        assert!(close(net - t - l + q, 0));
    }
}

#[test]
fn requirement_stays_within_cap() {
    let book = iron_book(vec![]);
    let bom = optimize(&book, &input(vec![("iron_ingot", 500)], vec![], true, RecipeFilter::AllRecipes)).unwrap();
    let ore = amount_of(&bom.requirements, "iron_ore").unwrap();
    assert!(ore <= 600 * U + 1_000);
    assert!(matches!(
        optimize(&book, &input(vec![("iron_ingot", 700)], vec![], true, RecipeFilter::AllRecipes)),
        Err(Error::ResolutionFailed(_))
    ));
}

#[test]
fn problem_constraints_follow_item_kinds() {
    let book = iron_book(vec![]);
    let filtered = book.filter(&RecipeFilter::AllRecipes).unwrap();
    let problem = Factory::create_problem(&input(vec![("iron_ingot", 30)], vec![], true, RecipeFilter::AllRecipes), &filtered).unwrap();
    let ore = problem.items.iter().position(|i| i.id() == "iron_ore").unwrap();
    let ingot = problem.items.iter().position(|i| i.id() == "iron_ingot").unwrap();
    assert_eq!(problem.coefficients[ore][0], -1);
    assert_eq!(problem.coefficients[ingot][0], 1);
    let of = |i: usize| problem.constraints.iter().filter(|c| c.item == i).map(|c| (c.relation, c.bound)).collect::<Vec<_>>();
    assert_eq!(of(ore), vec![(Relation::AtMost, 0), (Relation::AtLeast, -600)]);
    assert_eq!(of(ingot), vec![(Relation::Exactly, 30)]);
    assert_eq!(problem.objective.len(), 1);
    assert_eq!(problem.objective[0].numerator, 600);
    assert_eq!(problem.objective[0].denominator, 600);
}

#[test]
fn unknown_target_is_an_error() {
    let book = iron_book(vec![]);
    let filtered = book.filter(&RecipeFilter::AllRecipes).unwrap();
    let r = Factory::create_problem(&input(vec![("unobtainium", 3)], vec![], true, RecipeFilter::AllRecipes), &filtered);
    assert!(matches!(r, Err(Error::UnknownItem(s)) if s == "unobtainium"));
}

#[test]
fn recipe_index_out_of_range() {
    let book = iron_book(vec![]);
    assert!(matches!(book.get_recipe(5), Err(Error::InvalidRecipeIndex(5))));
    let filtered = book.filter(&RecipeFilter::AllRecipes).unwrap();
    assert_eq!(filtered.number_of_recipes(), 1);
    assert!(matches!(filtered.get_recipe(1), Err(Error::InvalidRecipeIndex(1))));
    assert!(matches!(book.get_item_by_id("nope"), Err(Error::UnknownItem(s)) if s == "nope"));
    assert_eq!(book.get_involved_items().unwrap().len(), 2);
}

#[test]
fn nodes_cap() {
    assert_eq!(Nodes::new(1, 2, 3).max_quantity_per_minute(), 300 + 1200 + 2340);
    assert_eq!(resource("x", None).cap(), 0);
}

#[test]
fn recipes_come_by_complexity() {
    let ore = resource("iron_ore", None);
    let ingot = product("iron_ingot");
    let rod = product("iron_rod");
    let screw = product("screw");
    let recipes = vec![
        recipe("_screw", 6, constructor(), false, vec![(&rod, 1)], vec![(&screw, 4)]),
        recipe("_iron_rod", 4, constructor(), false, vec![(&ingot, 1)], vec![(&rod, 1)]),
        recipe("_iron_ingot", 2, smelter(), false, vec![(&ore, 1)], vec![(&ingot, 1)]),
    ];
    let book = FullBook::new(vec![ore, ingot, rod, screw], recipes);
    let bom = optimize(&book, &input(vec![("screw", 40)], vec![], true, RecipeFilter::AllRecipes)).unwrap();
    let ids: Vec<&str> = bom.recipes.iter().map(|(r, _)| r.id()).collect();
    assert_eq!(ids, vec!["_iron_ingot", "_iron_rod", "_screw"]);
    assert!(close(bom.recipes[2].1 as i128, 10 * U));
    assert!(close(amount_of(&bom.requirements, "iron_ore").unwrap(), 10 * U));
}

#[test]
fn refiltering_narrows_the_recipes() {
    let ore = resource("iron_ore", None);
    let ingot = product("iron_ingot");
    let alt = recipe("_alt_ingot", 4, smelter(), true, vec![(&ore, 1)], vec![(&ingot, 2)]);
    let book = iron_book(vec![alt]);
    let all = book.filter(&RecipeFilter::AllRecipes).unwrap();
    assert_eq!(all.number_of_recipes(), 2);
    let plain = all.filter(&RecipeFilter::NotAlternate).unwrap();
    assert_eq!(plain.number_of_recipes(), 1);
    assert_eq!(plain.get_recipe(0).unwrap().id(), "_iron_ingot");
    let none = plain.filter(&RecipeFilter::NotNamed("_IRON_INGOT".to_string())).unwrap();
    assert_eq!(none.number_of_recipes(), 0);
    assert_eq!(plain.get_involved_items().unwrap().len(), 2);
    assert!(plain.get_item_by_id("iron_plate").is_ok());
}

#[test]
fn rates_off_the_constraints_are_refused() {
    let book = iron_book(vec![]);
    let filtered = book.filter(&RecipeFilter::AllRecipes).unwrap();
    let request = input(vec![("iron_ingot", 30)], vec![], true, RecipeFilter::AllRecipes);
    let problem = Factory::create_problem(&request, &filtered).unwrap();
    assert!(problem.checked_bom(&vec![30 * UNITS_PER_ITEM]).is_ok());
    assert!(problem.checked_bom(&vec![30 * UNITS_PER_ITEM + 999]).is_ok());
    assert!(matches!(
        problem.checked_bom(&vec![31 * UNITS_PER_ITEM]),
        Err(Error::ResolutionFailed(LpFailure::Numerical))
    ));
    // the bill itself does not look at the constraints
    assert!(problem.create_bom(&vec![31 * UNITS_PER_ITEM]).is_ok());
}

#[test]
fn cycle_depths_follow_the_exploration() {
    let a = product("a");
    let b = product("b");
    let c = product("c");
    let d = product("d");
    let recipes = vec![
        recipe("_a", 1, smelter(), false, vec![(&b, 1)], vec![(&a, 1)]),
        recipe("_b", 1, smelter(), false, vec![(&a, 1)], vec![(&b, 1)]),
        recipe("_c", 1, smelter(), false, vec![(&c, 1)], vec![(&b, 1)]),
        recipe("_d", 1, smelter(), false, vec![(&d, 1)], vec![(&c, 1)]),
    ];
    // b is explored first: a reads b as 0 and gets 1, c gets 1, so b gets 2.
    assert_eq!(compute_complexity(&recipes), vec![2, 1, 1, 0]);
}
