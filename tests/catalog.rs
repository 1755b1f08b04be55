use factory_bom::book::Book;
use factory_bom::building::Building;
use factory_bom::catalog::{BookDto, BuildingDto, ExtractorDto, ItemDto, ProcessorDto, ProductDto, ReactantDto, RecipeDto, ResourceDto};
use factory_bom::error::Error;
use factory_bom::item::Item;

fn book(extractor: &str, recipe_building: &str) -> BookDto {
    BookDto {
        name: "test".to_string(),
        buildings: vec![
            BuildingDto::Extractor(ExtractorDto { id: "miner_mk1".to_string(), kind: "miner".to_string(), power_usage: 5, normal_extraction_rate: 60 }),
            BuildingDto::Processor(ProcessorDto { id: "smelter".to_string(), kind: "smelter".to_string(), power_usage: 4 }),
        ],
        items: vec![
            ItemDto::Resource(ResourceDto { id: "iron_ore".to_string(), extractor: extractor.to_string(), impure: -3, normal: 1, pure: 0 }),
            ItemDto::Product(ProductDto { id: "iron_ingot".to_string() }),
        ],
        recipes: vec![RecipeDto {
            id: "_iron_ingot".to_string(),
            duration: 2,
            building: recipe_building.to_string(),
            alternate: false,
            inputs: vec![ReactantDto { item_id: "iron_ore".to_string(), quantity: 1 }],
            outputs: vec![ReactantDto { item_id: "iron_ingot".to_string(), quantity: 1 }],
        }],
    }
}

#[test]
fn catalog_resolves_references() {
    let full = book("miner", "smelter").to_full_book().unwrap();
    assert_eq!(full.number_of_recipes(), 1);
    let ore = full.get_item_by_id("iron_ore").unwrap();
    match ore {
        Item::Resource(r) => {
            assert_eq!(r.extractor.id, "miner_mk1");
            assert_eq!(r.max_quantity_per_minute(), Some(600));
        }
        _ => panic!("expected a resource"),
    }
    assert!(matches!(full.get_recipe(0).unwrap().building(), Building::Processor(_)));
}

#[test]
fn unknown_extractor() {
    assert!(matches!(book("drill", "smelter").to_full_book(), Err(Error::UnknownBuilding(s)) if s == "drill"));
}

#[test]
fn extractor_must_extract() {
    assert!(matches!(book("smelter", "smelter").to_full_book(), Err(Error::InvalidBuilding(s)) if s == "smelter"));
}

#[test]
fn unknown_recipe_building() {
    assert!(matches!(book("miner", "foundry").to_full_book(), Err(Error::UnknownBuilding(s)) if s == "foundry"));
}

#[test]
fn a_later_item_with_the_same_id_replaces_the_earlier() {
    let mut dto = book("miner", "smelter");
    dto.items.push(ItemDto::Product(ProductDto { id: "iron_ore".to_string() }));
    let full = dto.to_full_book().unwrap();
    assert_eq!(full.items().len(), 2);
    assert!(matches!(full.get_item_by_id("iron_ore").unwrap(), Item::Product(_)));
}
