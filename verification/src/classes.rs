//! The surface classes a printed model is colored with, and their fixed
//! class-index order.
use vstd::prelude::*;

verus! {

/// A material class painted onto the printed surface.
#[derive(Debug, Clone, Copy, PartialEq, Eq, Structural)]
pub enum SurfaceClass {
    Rock,
    Forest,
    Snow,
    Water,
    Road,
    Building,
    /// Imported hiker trails.
    Trail,
    /// Railways drawn in their own color.
    Rail,
    /// Aerialways drawn in their own color.
    Aerial,
    /// User-placed colored dots and highlighted buildings.
    Marker,
}

/// Number of surface classes.
pub const CLASS_COUNT: usize = 10;

/// The class identity index: the position of a class in the fixed class order.
pub open spec fn class_index(class: SurfaceClass) -> nat {
    match class {
        SurfaceClass::Rock => 0,
        SurfaceClass::Forest => 1,
        SurfaceClass::Snow => 2,
        SurfaceClass::Water => 3,
        SurfaceClass::Road => 4,
        SurfaceClass::Building => 5,
        SurfaceClass::Trail => 6,
        SurfaceClass::Rail => 7,
        SurfaceClass::Aerial => 8,
        SurfaceClass::Marker => 9,
    }
}

/// The class at a position of the fixed class order.
pub open spec fn class_at_index(index: int) -> SurfaceClass
    recommends
        0 <= index < 10,
{
    if index == 0 {
        SurfaceClass::Rock
    } else if index == 1 {
        SurfaceClass::Forest
    } else if index == 2 {
        SurfaceClass::Snow
    } else if index == 3 {
        SurfaceClass::Water
    } else if index == 4 {
        SurfaceClass::Road
    } else if index == 5 {
        SurfaceClass::Building
    } else if index == 6 {
        SurfaceClass::Trail
    } else if index == 7 {
        SurfaceClass::Rail
    } else if index == 8 {
        SurfaceClass::Aerial
    } else {
        SurfaceClass::Marker
    }
}

impl SurfaceClass {
    /// The class identity index used by the preview, coverage histogram and
    /// mesh materials.
    pub fn material_index(self) -> (index: u32)
        ensures
            index == class_index(self),
            index < CLASS_COUNT,
    {
        match self {
            SurfaceClass::Rock => 0,
            SurfaceClass::Forest => 1,
            SurfaceClass::Snow => 2,
            SurfaceClass::Water => 3,
            SurfaceClass::Road => 4,
            SurfaceClass::Building => 5,
            SurfaceClass::Trail => 6,
            SurfaceClass::Rail => 7,
            SurfaceClass::Aerial => 8,
            SurfaceClass::Marker => 9,
        }
    }

    /// The class with the given identity index, if there is one.
    pub fn from_material_index(index: u32) -> (class: Option<SurfaceClass>)
        ensures
            index < CLASS_COUNT <==> class is Some,
            class matches Some(c) ==> class_index(c) == index && c == class_at_index(index as int),
    {
        match index {
            0 => Some(SurfaceClass::Rock),
            1 => Some(SurfaceClass::Forest),
            2 => Some(SurfaceClass::Snow),
            3 => Some(SurfaceClass::Water),
            4 => Some(SurfaceClass::Road),
            5 => Some(SurfaceClass::Building),
            6 => Some(SurfaceClass::Trail),
            7 => Some(SurfaceClass::Rail),
            8 => Some(SurfaceClass::Aerial),
            9 => Some(SurfaceClass::Marker),
            _ => None,
        }
    }

    /// Every class, in identity-index order.
    pub fn all() -> (classes: Vec<SurfaceClass>)
        ensures
            classes@.len() == CLASS_COUNT,
            forall|i: int| 0 <= i < 10 ==> #[trigger] classes@[i] == class_at_index(i),
    {
        vec![
            SurfaceClass::Rock,
            SurfaceClass::Forest,
            SurfaceClass::Snow,
            SurfaceClass::Water,
            SurfaceClass::Road,
            SurfaceClass::Building,
            SurfaceClass::Trail,
            SurfaceClass::Rail,
            SurfaceClass::Aerial,
            SurfaceClass::Marker,
        ]
    }
}

/// Class identity indices are a bijection between classes and `0..10`.
pub proof fn lemma_class_index_bijection(class: SurfaceClass, index: int)
    requires
        0 <= index < 10,
    ensures
        class_index(class) < 10,
        class_at_index(class_index(class) as int) == class,
        class_index(class_at_index(index)) == index,
{
}

} // verus!
