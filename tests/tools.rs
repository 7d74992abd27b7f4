use archetype_ecs::crop::content_bounds;
use archetype_ecs::packer::{Config, Rect};
use archetype_ecs::packing::{next_power_of_two, PackError, ShelfPacker, Strip};
use archetype_ecs::sprites::{check_sheet, power_of_two, sprite_in_bounds, SpriteSheetError};
use archetype_ecs::resources::{ResourceLoader, ResourceManager};
use std::cell::Cell;
use std::rc::Rc;

#[test]
fn rects_collide_when_touching_or_overlapping() {
    let a = Rect::new(0, 0, 10, 10);
    assert_eq!(a, Rect { x: 0, y: 0, width: 10, height: 10 });
    assert!(Rect::check_collision(&a, &Rect::new(5, 5, 10, 10)));
    assert!(Rect::check_collision(&a, &Rect::new(10, 0, 4, 4)));
    assert!(!Rect::check_collision(&a, &Rect::new(11, 0, 4, 4)));
    assert!(!Rect::check_collision(&a, &Rect::new(0, 20, 4, 4)));
    let far = Rect::new(u32::MAX, u32::MAX, u32::MAX, u32::MAX);
    assert!(!Rect::check_collision(&a, &far));
    assert!(Rect::check_collision(&far, &far));
}

#[test]
fn config_needs_two_folders() {
    let args = vec!["packer".to_string(), "in".to_string()];
    assert_eq!(Config::build(&args, true, true).err(), Some("Not enough arguments"));
    let args = vec!["packer".to_string(), "in".to_string(), "out".to_string()];
    assert_eq!(
        Config::build(&args, true, false).err(),
        Some("Input and output folders must be directories")
    );
    let c = Config::build(&args, true, true).ok().unwrap();
    assert_eq!((c.input_folder.as_str(), c.output_folder.as_str()), ("in", "out"));
}

struct Counting {
    calls: Cell<u32>,
}

impl ResourceLoader<'_, String> for Counting {
    fn load(&self, name: &str) -> Result<String, String> {
        self.calls.set(self.calls.get() + 1);
        if name == "missing" {
            Err(format!("no resource {}", name))
        } else {
            Ok(format!("contents of {}", name))
        }
    }
}

#[test]
fn resources_are_loaded_once() {
    let loader = Counting { calls: Cell::new(0) };
    let mut manager = ResourceManager::new(&loader);
    let first = manager.load("tiles").unwrap();
    let second = manager.load("tiles").unwrap();
    assert_eq!(first.as_str(), "contents of tiles");
    assert!(Rc::ptr_eq(&first, &second));
    assert_eq!(loader.calls.get(), 1);
    let other = manager.load("walls").unwrap();
    assert_eq!(other.as_str(), "contents of walls");
    assert_eq!(loader.calls.get(), 2);
}

#[test]
fn failed_loads_are_not_cached() {
    let loader = Counting { calls: Cell::new(0) };
    let mut manager = ResourceManager::new(&loader);
    assert_eq!(manager.load("missing"), Err("no resource missing".to_string()));
    assert_eq!(manager.load("missing"), Err("no resource missing".to_string()));
    assert_eq!(loader.calls.get(), 2);
}

#[test]
fn sprite_sheets_need_power_of_two_sides() {
    assert!(power_of_two(1));
    assert!(power_of_two(64));
    assert!(power_of_two(0x8000_0000));
    assert!(!power_of_two(0));
    assert!(!power_of_two(96));
    assert!(!power_of_two(u32::MAX));
    assert_eq!(check_sheet(64, 32, 16, 16), Ok(()));
    assert_eq!(check_sheet(60, 32, 16, 16), Err(SpriteSheetError::SheetNotPOT));
    assert_eq!(check_sheet(64, 32, 0, 16), Err(SpriteSheetError::InvalidSpriteSize));
    assert_eq!(check_sheet(64, 32, 24, 16), Err(SpriteSheetError::InvalidSpriteSize));
    assert!(sprite_in_bounds(64, 32, 16, 16, 4, 2));
    assert!(!sprite_in_bounds(64, 32, 16, 16, 5, 0));
    assert!(!sprite_in_bounds(64, 32, 16, 16, u32::MAX, 0));
}

#[test]
fn next_power_of_two_rounds_up() {
    assert_eq!(next_power_of_two(0), Some(1));
    assert_eq!(next_power_of_two(1), Some(1));
    assert_eq!(next_power_of_two(5), Some(8));
    assert_eq!(next_power_of_two(64), Some(64));
    assert_eq!(next_power_of_two(0x8000_0000), Some(0x8000_0000));
    assert_eq!(next_power_of_two(0x8000_0001), None);
}

#[test]
fn shelf_packer_fills_strips_then_grows() {
    let mut p = ShelfPacker::new(20, 10).ok().unwrap();
    assert_eq!((p.width(), p.height()), (32, 16));
    assert_eq!(p.strips(), &vec![Strip { y: 0, height: 10, used_width: 0 }]);
    assert_eq!(p.place(20, 10), Ok(Rect::new(0, 0, 20, 10)));
    assert_eq!(p.place(8, 8), Ok(Rect::new(20, 0, 8, 8)));
    assert_eq!(p.try_place(8, 8), None);
    assert_eq!(p.place(8, 8), Ok(Rect::new(0, 10, 8, 8)));
    assert_eq!((p.width(), p.height()), (32, 32));
    assert_eq!(p.place(4, 2), Ok(Rect::new(28, 0, 4, 2)));
    assert_eq!(p.place(40, 4), Ok(Rect::new(8, 10, 40, 4)));
    assert_eq!(p.width(), 64);
    assert!(ShelfPacker::new(0x8000_0001, 1).is_err());
    let mut big = ShelfPacker::new(0x8000_0000, 1).ok().unwrap();
    assert_eq!(big.place(1, 0x8000_0000), Err(PackError::AtlasTooLarge));
}

#[test]
fn grow_doubles_the_shorter_side() {
    let mut p = ShelfPacker::new(4, 4).ok().unwrap();
    assert!(p.grow());
    assert_eq!((p.width(), p.height()), (8, 4));
    assert!(p.grow());
    assert_eq!((p.width(), p.height()), (8, 8));
}

#[test]
fn crop_keeps_columns_and_rows_with_content() {
    let alpha = vec![vec![0, 5, 0, 0], vec![0, 0, 0, 0], vec![9, 0, 0, 0], vec![0, 0, 0, 0]];
    assert_eq!(content_bounds(&alpha, 4), (2, 3));
    let alpha = vec![vec![0, 0, 0, 7], vec![0, 0, 0, 0]];
    assert_eq!(content_bounds(&alpha, 4), (4, 1));
    let alpha = vec![vec![0, 0], vec![0, 0]];
    assert_eq!(content_bounds(&alpha, 2), (0, 0));
    let alpha = vec![vec![0, 0], vec![0, 3]];
    assert_eq!(content_bounds(&alpha, 2), (2, 2));
    let alpha = vec![vec![1, 0], vec![0, 3], vec![0, 0]];
    assert_eq!(content_bounds(&alpha, 2), (2, 2));
}
