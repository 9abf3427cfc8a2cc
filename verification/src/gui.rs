//! The settings from which a generation mode is chosen.
//!
//! A mode is chosen from a list by its index. Each choice has settings of
//! its own, and a choice of tiles has a second tree below it, which says
//! how the inside of each tile is cut.

use vstd::prelude::*;

verus! {

/// The modes that can be chosen, each with its settings. A mode named
/// after pixels hands out single cells in place of rows, columns or tiles.
#[derive(Debug, Copy, Clone, PartialEq, Eq, Structural)]
pub enum GUIModeSettings {
    PixelRandom,
    Line { reverse_order_horizontal: bool, random_order_vertical: bool },
    PixelLine { reverse_order_horizontal: bool, random_order_vertical: bool },
    Stripe { random_order_horizontal: bool, reverse_order_vertical: bool },
    PixelStripe { random_order_horizontal: bool, reverse_order_vertical: bool },
    LineFirstTile { tile_width: u32, tile_height: u32, horizontal_order: usize, vertical_order: usize },
    StripeFirstTile {
        tile_width: u32,
        tile_height: u32,
        horizontal_order: usize,
        vertical_order: usize,
    },
    LineFirstPixelTile {
        tile_width: u32,
        tile_height: u32,
        horizontal_order: usize,
        vertical_order: usize,
    },
    StripeFirstPixelTile {
        tile_width: u32,
        tile_height: u32,
        horizontal_order: usize,
        vertical_order: usize,
    },
}

/// The index that was chosen last, the settings of the mode, and for a
/// mode of tiles the tree for the inside of the tiles.
#[derive(Debug)]
pub struct GUIModeTree {
    pub selection: usize,
    pub settings: GUIModeSettings,
    pub sub_tree: Option<Box<GUIModeTree>>,
}

/// The place of a mode in the list of modes.
pub open spec fn index_of_settings(mode: GUIModeSettings) -> int {
    match mode {
        GUIModeSettings::PixelRandom => 0,
        GUIModeSettings::Line { .. } => 1,
        GUIModeSettings::PixelLine { .. } => 2,
        GUIModeSettings::Stripe { .. } => 3,
        GUIModeSettings::PixelStripe { .. } => 4,
        GUIModeSettings::LineFirstTile { .. } => 5,
        GUIModeSettings::StripeFirstTile { .. } => 6,
        GUIModeSettings::LineFirstPixelTile { .. } => 7,
        GUIModeSettings::StripeFirstPixelTile { .. } => 8,
    }
}

/// Whether the mode cuts the grid into tiles, so that it needs a tree below
/// it for the inside of the tiles.
pub open spec fn is_tile_settings(mode: GUIModeSettings) -> bool {
    5 <= index_of_settings(mode) <= 8
}

/// The settings that a mode starts with when it is chosen by its index: no
/// order reversed or shuffled, tiles of ten by ten cells. An index beyond
/// the list chooses the first mode.
pub open spec fn settings_of_index(index: int) -> GUIModeSettings {
    if index == 1 {
        GUIModeSettings::Line { reverse_order_horizontal: false, random_order_vertical: false }
    } else if index == 2 {
        GUIModeSettings::PixelLine { reverse_order_horizontal: false, random_order_vertical: false }
    } else if index == 3 {
        GUIModeSettings::Stripe { random_order_horizontal: false, reverse_order_vertical: false }
    } else if index == 4 {
        GUIModeSettings::PixelStripe {
            random_order_horizontal: false,
            reverse_order_vertical: false,
        }
    } else if index == 5 {
        GUIModeSettings::LineFirstTile {
            tile_width: 10,
            tile_height: 10,
            horizontal_order: 0,
            vertical_order: 0,
        }
    } else if index == 6 {
        GUIModeSettings::StripeFirstTile {
            tile_width: 10,
            tile_height: 10,
            horizontal_order: 0,
            vertical_order: 0,
        }
    } else if index == 7 {
        GUIModeSettings::LineFirstPixelTile {
            tile_width: 10,
            tile_height: 10,
            horizontal_order: 0,
            vertical_order: 0,
        }
    } else if index == 8 {
        GUIModeSettings::StripeFirstPixelTile {
            tile_width: 10,
            tile_height: 10,
            horizontal_order: 0,
            vertical_order: 0,
        }
    } else {
        GUIModeSettings::PixelRandom
    }
}

/// The place of a mode in the list of modes.
pub fn mode_settings_to_index(mode: &GUIModeSettings) -> (index: usize)
    ensures
        index == index_of_settings(*mode),
{
    match mode {
        GUIModeSettings::PixelRandom => 0,
        GUIModeSettings::Line { .. } => 1,
        GUIModeSettings::PixelLine { .. } => 2,
        GUIModeSettings::Stripe { .. } => 3,
        GUIModeSettings::PixelStripe { .. } => 4,
        GUIModeSettings::LineFirstTile { .. } => 5,
        GUIModeSettings::StripeFirstTile { .. } => 6,
        GUIModeSettings::LineFirstPixelTile { .. } => 7,
        GUIModeSettings::StripeFirstPixelTile { .. } => 8,
    }
}

/// The settings that a mode starts with when it is chosen by its index.
pub fn index_to_mode_settings(index: usize) -> (mode: GUIModeSettings)
    ensures
        mode == settings_of_index(index as int),
{
    match index {
        1 => GUIModeSettings::Line { reverse_order_horizontal: false, random_order_vertical: false },
        2 => GUIModeSettings::PixelLine {
            reverse_order_horizontal: false,
            random_order_vertical: false,
        },
        3 => GUIModeSettings::Stripe {
            random_order_horizontal: false,
            reverse_order_vertical: false,
        },
        4 => GUIModeSettings::PixelStripe {
            random_order_horizontal: false,
            reverse_order_vertical: false,
        },
        5 => GUIModeSettings::LineFirstTile {
            tile_width: 10,
            tile_height: 10,
            horizontal_order: 0,
            vertical_order: 0,
        },
        6 => GUIModeSettings::StripeFirstTile {
            tile_width: 10,
            tile_height: 10,
            horizontal_order: 0,
            vertical_order: 0,
        },
        7 => GUIModeSettings::LineFirstPixelTile {
            tile_width: 10,
            tile_height: 10,
            horizontal_order: 0,
            vertical_order: 0,
        },
        8 => GUIModeSettings::StripeFirstPixelTile {
            tile_width: 10,
            tile_height: 10,
            horizontal_order: 0,
            vertical_order: 0,
        },
        _ => GUIModeSettings::PixelRandom,
    }
}

/// The tree that a mode starts with below it when it is chosen by its
/// index: for a mode of tiles a tree that shuffles the cells of each tile,
/// for any other mode none.
pub fn index_to_sub_tree(index: usize) -> (sub_tree: Option<Box<GUIModeTree>>)
    ensures
        sub_tree is Some <==> 5 <= index <= 8,
        sub_tree matches Some(tree) ==> tree.selection == 0 && tree.settings
            == GUIModeSettings::PixelRandom && tree.sub_tree is None,
{
    match index {
        5 | 6 | 7 | 8 => Some(
            Box::new(
                GUIModeTree { selection: 0, settings: GUIModeSettings::PixelRandom, sub_tree: None },
            ),
        ),
        _ => None,
    }
}

impl GUIModeTree {
    /// Every mode of tiles in the tree has a tree below it.
    pub open spec fn complete(self) -> bool
        decreases self,
    {
        is_tile_settings(self.settings) ==> match self.sub_tree {
            None => false,
            Some(sub_tree) => sub_tree.complete(),
        }
    }

    /// A tree for the given settings, chosen by the index of these settings.
    pub fn new(settings: GUIModeSettings, sub_tree: Option<Box<GUIModeTree>>) -> (tree: Self)
        ensures
            tree.settings == settings,
            tree.sub_tree == sub_tree,
            tree.selection == index_of_settings(settings),
    {
        GUIModeTree { selection: mode_settings_to_index(&settings), settings, sub_tree }
    }

    /// Chooses the mode with the given index, and starts afresh where this
    /// is another mode than the one the tree has settings for.
    pub fn select(&mut self, selection: usize)
        ensures
            final(self).selection == selection,
            selection == index_of_settings(old(self).settings) ==> final(self).settings == old(
                self,
            ).settings && final(self).sub_tree == old(self).sub_tree,
            selection != index_of_settings(old(self).settings) ==> final(self).settings
                == settings_of_index(selection as int) && match final(self).sub_tree {
                None => !(5 <= selection <= 8),
                Some(tree) => 5 <= selection <= 8 && tree.selection == 0 && tree.settings
                    == GUIModeSettings::PixelRandom && tree.sub_tree is None,
            },
    {
        self.selection = selection;
        Self::update_mode_tree(self);
    }

    /// Where the chosen index is not that of the settings the tree holds,
    /// puts in their place the settings and the tree below that the chosen
    /// mode starts with. Else the tree stays as it is.
    pub fn update_mode_tree(tree: &mut GUIModeTree)
        ensures
            final(tree).selection == old(tree).selection,
            old(tree).selection == index_of_settings(old(tree).settings) ==> *final(tree) == *old(
                tree,
            ),
            old(tree).selection != index_of_settings(old(tree).settings) ==> final(tree).settings
                == settings_of_index(old(tree).selection as int) && match final(tree).sub_tree {
                None => !(5 <= old(tree).selection <= 8),
                Some(below) => 5 <= old(tree).selection <= 8 && below.selection == 0
                    && below.settings == GUIModeSettings::PixelRandom && below.sub_tree is None,
            },
    {
        if tree.selection != mode_settings_to_index(&tree.settings) {
            let new_settings = index_to_mode_settings(tree.selection);
            let new_sub_tree = index_to_sub_tree(tree.selection);
            tree.settings = new_settings;
            tree.sub_tree = new_sub_tree;
        }
    }

    /// Whether every mode of tiles in the tree has a tree below it.
    pub fn is_complete(&self) -> (complete: bool)
        ensures
            complete == self.complete(),
        decreases self,
    {
        if mode_settings_to_index(&self.settings) < 5 {
            return true;
        }
        match &self.sub_tree {
            None => false,
            Some(sub_tree) => sub_tree.is_complete(),
        }
    }

    /// The same tree once more.
    fn duplicate(&self) -> (copy: Self)
        ensures
            copy == *self,
        decreases self,
    {
        let sub_tree = match &self.sub_tree {
            None => None,
            Some(sub_tree) => Some(Box::new(sub_tree.duplicate())),
        };
        GUIModeTree { selection: self.selection, settings: self.settings, sub_tree }
    }
}

impl Clone for GUIModeTree {
    fn clone(&self) -> (copy: Self)
        ensures
            copy == *self,
    {
        self.duplicate()
    }
}

} // verus!
