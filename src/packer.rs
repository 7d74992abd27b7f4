use vstd::prelude::*;

verus! {

/// An axis-aligned rectangle in pixels: its top-left corner and its size.
#[derive(Debug, Clone, Copy, PartialEq, Eq, Structural)]
pub struct Rect {
    pub x: u32,
    pub y: u32,
    pub width: u32,
    pub height: u32,
}

/// Whether two rectangles touch or overlap, edges included.
pub open spec fn spec_collides(r1: Rect, r2: Rect) -> bool {
    &&& r1.x + r1.width >= r2.x
    &&& r1.x <= r2.x + r2.width
    &&& r1.y + r1.height >= r2.y
    &&& r1.y <= r2.y + r2.height
}

impl Rect {
    pub fn new(x: u32, y: u32, width: u32, height: u32) -> (r: Rect)
        ensures
            r == (Rect { x, y, width, height }),
    {
        Rect { x, y, width, height }
    }

    /// Whether `r1` and `r2` touch or overlap, edges included. The sums are taken without
    /// overflow.
    pub fn check_collision(r1: &Rect, r2: &Rect) -> (r: bool)
        ensures
            r == spec_collides(*r1, *r2),
    {
        r1.x as u64 + r1.width as u64 >= r2.x as u64 && r1.x as u64 <= r2.x as u64
            + r2.width as u64 && r1.y as u64 + r1.height as u64 >= r2.y as u64 && r1.y as u64
            <= r2.y as u64 + r2.height as u64
    }
}

/// The settings of the texture packer: where the source images are, where atlases go.
pub struct Config {
    pub input_folder: String,
    pub output_folder: String,
}

impl Config {
    /// Reads the settings from the command line `args` (program name first). Whether the two
    /// folders are directories is found out by the caller and passed in.
    pub fn build(args: &[String], input_is_dir: bool, output_is_dir: bool) -> (r: Result<
        Config,
        &'static str,
    >)
        ensures
            args@.len() < 3 ==> (r matches Err(m) && m@ == "Not enough arguments"@),
            args@.len() >= 3 && !(input_is_dir && output_is_dir) ==> (r matches Err(m) && m@
                == "Input and output folders must be directories"@),
            args@.len() >= 3 && input_is_dir && output_is_dir ==> (r matches Ok(c)
                && c.input_folder@ == args@[1]@ && c.output_folder@ == args@[2]@),
    {
        if args.len() < 3 {
            proof {
                reveal_strlit("Not enough arguments");
            }
            return Err("Not enough arguments");
        }
        let input_folder = args[1].clone();
        let output_folder = args[2].clone();
        if !input_is_dir || !output_is_dir {
            proof {
                reveal_strlit("Input and output folders must be directories");
            }
            return Err("Input and output folders must be directories");
        }
        Ok(Config { input_folder, output_folder })
    }
}

} // verus!
