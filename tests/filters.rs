use factory_bom::building::{Building, Extractor, Processor};
use factory_bom::error::Error;
use factory_bom::input_item::{parse_input_items, InputItem};
use factory_bom::item::{Item, Product, Resource};
use factory_bom::ratio::ratio_approximate;
use factory_bom::reactant::Reactant;
use factory_bom::recipe::Recipe;
use factory_bom::recipe_filter::{parse_filter, RecipeFilter};

fn ingot_recipe(id: &str, building: &str, alternate: bool, manual: bool) -> Recipe {
    let kind = if manual { "manual" } else { "miner" };
    let ore = Item::Resource(Resource::new(
        "iron_ore".to_string(),
        Extractor::new("x".to_string(), kind.to_string(), 0, 0),
        None,
    ));
    let ingot = Item::Product(Product::new("iron_ingot".to_string()));
    Recipe::new(
        id.to_string(),
        2,
        Building::Processor(Processor::new(building.to_string(), "p".to_string(), 4)),
        alternate,
        vec![Reactant::new(ore, 1)],
        vec![Reactant::new(ingot, 1)],
    )
}

#[test]
fn empty_combinators() {
    let r = ingot_recipe("_iron_ingot", "smelter", true, true);
    assert!(RecipeFilter::AllOf(vec![]).matches(&r));
    assert!(!RecipeFilter::AnyOf(vec![]).matches(&r));
    assert!(RecipeFilter::NoneOf(vec![]).matches(&r));
}

#[test]
fn double_negation() {
    let r = ingot_recipe("_iron_ingot", "smelter", true, false);
    for f in [RecipeFilter::NotAlternate, RecipeFilter::NotManual, RecipeFilter::AllRecipes] {
        let expected = f.matches(&r);
        let twice = RecipeFilter::Not(Box::new(RecipeFilter::Not(Box::new(f))));
        assert_eq!(twice.matches(&r), expected);
    }
}

#[test]
fn primitive_filters() {
    let plain = ingot_recipe("_iron_ingot", "smelter", false, false);
    let alt = ingot_recipe("_alt", "blender", true, true);
    assert!(RecipeFilter::NotAlternate.matches(&plain));
    assert!(!RecipeFilter::NotAlternate.matches(&alt));
    assert!(RecipeFilter::NotManual.matches(&plain));
    assert!(!RecipeFilter::NotManual.matches(&alt));
    assert!(!RecipeFilter::NoBlender.matches(&alt));
    assert!(RecipeFilter::NoRefinery.matches(&alt));
    assert!(!RecipeFilter::NotNamed("_IRON_Ingot".to_string()).matches(&plain));
    assert!(RecipeFilter::NotNamed("_iron_ingots".to_string()).matches(&plain));
    assert!(!RecipeFilter::NotUsing("iron_ore".to_string()).matches(&plain));
    assert!(RecipeFilter::NotUsing("copper_ore".to_string()).matches(&plain));
    assert!(RecipeFilter::AnyOf(vec![RecipeFilter::NotAlternate, RecipeFilter::NoBlender]).matches(&plain));
    assert!(!RecipeFilter::NoneOf(vec![RecipeFilter::NotAlternate]).matches(&plain));
}

#[test]
fn filter_syntax() {
    let f = parse_filter("not-alternate,wo_Foo,nu_iron_ore").unwrap();
    match f {
        RecipeFilter::AllOf(fs) => {
            assert_eq!(fs.len(), 3);
            assert!(matches!(fs[0], RecipeFilter::NotAlternate));
            assert!(matches!(&fs[1], RecipeFilter::NotNamed(n) if n == "Foo"));
            assert!(matches!(&fs[2], RecipeFilter::NotUsing(n) if n == "iron_ore"));
        }
        _ => panic!("expected a conjunction"),
    }
    assert!(matches!(parse_filter("not-manual,bogus"), Err(Error::FilterParsingFailed(s)) if s == "bogus"));
    assert!(matches!(RecipeFilter::parse_token("all-recipes"), Ok(RecipeFilter::AllRecipes)));
}

#[test]
fn input_items() {
    let it = InputItem::parse("30.iron_plate").unwrap();
    assert_eq!(it.name, "iron_plate");
    assert_eq!(it.quantity, 30);
    assert!(matches!(InputItem::parse("x.iron"), Err(Error::TargetParsingFailed(s)) if s == "x.iron"));
    assert!(matches!(InputItem::parse("30iron"), Err(Error::TargetParsingFailed(_))));
    let v = parse_input_items("30.iron_ingot,5.screw").unwrap();
    assert_eq!(v, vec![("iron_ingot".to_string(), 30), ("screw".to_string(), 5)]);
    assert!(parse_input_items("").is_err());
}

#[test]
fn ratio_of_small_fractions_is_exact() {
    let third = ratio_approximate(333_333_333);
    assert_eq!((third.numer, third.denom), (1, 3));
    let two_sevenths = ratio_approximate(285_714_286);
    assert_eq!((two_sevenths.numer, two_sevenths.denom), (2, 7));
    let minus = ratio_approximate(-2_500_000_000);
    assert_eq!((minus.numer, minus.denom), (-5, 2));
    let whole = ratio_approximate(30_000_000_000);
    assert_eq!((whole.numer, whole.denom), (30, 1));
}

#[test]
fn ratio_is_within_a_thousandth() {
    for v in [1i128, 123_456_789, 3_141_592_654, -987_654_321, 42_000_000_001] {
        let r = ratio_approximate(v);
        let approx = r.numer as f64 / r.denom as f64;
        assert!((approx - v as f64 / 1e9).abs() < 1e-3);
    }
}

#[test]
fn filter_names() {
    assert_eq!(RecipeFilter::NotManual.name(), "not-manual");
    assert_eq!(RecipeFilter::NoneOf(vec![]).name(), "none-of()");
    assert_eq!(RecipeFilter::NotNamed("x".to_string()).name(), "not-named");
}

#[test]
fn later_entries_win() {
    let v = parse_input_items("30.iron_ingot,5.iron_ingot").unwrap();
    assert_eq!(factory_bom::problem::entry_amount(&v, &"iron_ingot".to_string()), Some(5));
}
