use vstd::prelude::*;

verus! {

/// The kinds of block a world cell can hold.
#[derive(Clone, Copy, PartialEq, Eq, Debug, Hash, Structural)]
pub enum Block {
    Air,
    Grass,
    Dirt,
    Stone,
    Border,
}

/// The block whose numeric tag is `tag`; unknown tags read as air.
pub open spec fn block_of_tag(tag: u32) -> Block {
    if tag == 1 {
        Block::Grass
    } else if tag == 2 {
        Block::Dirt
    } else if tag == 3 {
        Block::Stone
    } else if tag == 4 {
        Block::Border
    } else {
        Block::Air
    }
}

/// The numeric tag of a block, also its texture index in the tile set.
pub open spec fn tag_of(b: Block) -> u32 {
    match b {
        Block::Air => 0,
        Block::Grass => 1,
        Block::Dirt => 2,
        Block::Stone => 3,
        Block::Border => 4,
    }
}

/// Every block but air takes part in collisions.
pub open spec fn is_solid(b: Block) -> bool {
    b != Block::Air
}

/// Whether the block's texture may be mirrored for variety.
pub open spec fn flips(b: Block) -> bool {
    match b {
        Block::Air | Block::Grass => false,
        Block::Dirt | Block::Stone | Block::Border => true,
    }
}

/// The texture file of each block.
pub open spec fn texture_of(b: Block) -> Seq<char> {
    match b {
        Block::Air => "tiles/air.png"@,
        Block::Grass => "tiles/grass.png"@,
        Block::Dirt => "tiles/dirt.png"@,
        Block::Stone => "tiles/stone.png"@,
        Block::Border => "tiles/border.png"@,
    }
}

impl Block {
    pub fn from(block: u32) -> (r: Self)
        ensures
            r == block_of_tag(block),
    {
        match block {
            1 => Block::Grass,
            2 => Block::Dirt,
            3 => Block::Stone,
            4 => Block::Border,
            _ => Block::Air,
        }
    }

    /// The numeric tag of the block; `Block::from` maps it back.
    pub fn tag(&self) -> (r: u32)
        ensures
            r == tag_of(*self),
            block_of_tag(r) == *self,
    {
        match self {
            Block::Air => 0,
            Block::Grass => 1,
            Block::Dirt => 2,
            Block::Stone => 3,
            Block::Border => 4,
        }
    }

    pub fn should_flip(&self) -> (r: bool)
        ensures
            r == flips(*self),
    {
        match self {
            Block::Air => false,
            Block::Grass => false,
            Block::Dirt => true,
            Block::Stone => true,
            Block::Border => true,
        }
    }

    pub fn is_solid(&self) -> (r: bool)
        ensures
            r == is_solid(*self),
    {
        match self {
            Block::Air => false,
            _ => true,
        }
    }

    pub fn texture_path(&self) -> (r: &'static str)
        ensures
            r@ == texture_of(*self),
    {
        match self {
            Block::Air => "tiles/air.png",
            Block::Grass => "tiles/grass.png",
            Block::Dirt => "tiles/dirt.png",
            Block::Stone => "tiles/stone.png",
            Block::Border => "tiles/border.png",
        }
    }
}

} // verus!
