use vstd::prelude::*;

verus! {

/// The phases the game goes through: assets load, the world is generated,
/// then play runs.
#[derive(Clone, Copy, PartialEq, Eq, Debug, Hash, Default, Structural)]
pub enum GameState {
    #[default]
    AssetLoading,
    WorldGeneration,
    InGame,
}

} // verus!
