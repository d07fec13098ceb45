use vstd::prelude::*;

verus! {

/// The client's identity for an instance (e.g. `Instance:GetDebugId()`), opaque
/// to the broker and only required to be stable for a session's lifetime.
pub type DomId = String;

/// Raw bytes that travel as a byte buffer rather than a UTF-8 string.
#[derive(Clone, Debug, Default, PartialEq, Eq, Hash, PartialOrd, Ord)]
pub struct DomBytes(pub Vec<u8>);

/// An RGB colour with 8-bit channels.
#[derive(Clone, Copy, Debug, PartialEq, Eq, Structural)]
pub struct Color3 {
    pub r: u8,
    pub g: u8,
    pub b: u8,
}

/// A `UDim`: scale and offset, each an `f32` bit pattern.
#[derive(Clone, Copy, Debug, PartialEq, Eq, Structural)]
pub struct UDim {
    pub scale: u32,
    pub offset: u32,
}

/// A `UDim2`: one `UDim` per axis.
#[derive(Clone, Copy, Debug, PartialEq, Eq, Structural)]
pub struct UDim2 {
    pub x: UDim,
    pub y: UDim,
}

/// Three `f32` bit patterns.
#[derive(Clone, Copy, Debug, PartialEq, Eq, Structural)]
pub struct Vector3 {
    pub x: u32,
    pub y: u32,
    pub z: u32,
}

/// A `Region3` as its centre and size.
#[derive(Clone, Copy, Debug, PartialEq, Eq, Structural)]
pub struct Region3 {
    pub size: Vector3,
    pub position: Vector3,
}

/// An `Axes` value: the three axes and the faces coupled to them.
#[derive(Clone, Copy, Debug, PartialEq, Eq, Structural)]
pub struct Axes {
    pub x: bool,
    pub y: bool,
    pub z: bool,
    pub top: bool,
    pub bottom: bool,
    pub left: bool,
    pub right: bool,
    pub back: bool,
    pub front: bool,
}

/// A `Faces` value.
#[derive(Clone, Copy, Debug, PartialEq, Eq, Structural)]
pub struct Faces {
    pub back: bool,
    pub bottom: bool,
    pub front: bool,
    pub left: bool,
    pub right: bool,
    pub top: bool,
}

/// One `NumberSequence` keypoint, each field an `f32` bit pattern.
#[derive(Clone, Copy, Debug, PartialEq, Eq, Structural)]
pub struct NumberKeypoint {
    pub value: u32,
    pub envelope: u32,
    pub time: u32,
}

/// One `ColorSequence` keypoint; `time` is an `f32` bit pattern.
#[derive(Clone, Copy, Debug, PartialEq, Eq, Structural)]
pub struct ColorKeypoint {
    pub value: Color3,
    pub time: u32,
}

/// A `Content` value.
#[derive(Clone, Debug, PartialEq, Eq, Hash, PartialOrd, Ord)]
pub enum ContentValue {
    Empty,
    Uri(Option<String>),
    Object(DomId),
}

/// A Roblox datatype value as it crosses the wire.
#[derive(Clone, Debug, PartialEq)]
pub enum DomValue {
    Bool(bool),
    /// An `f64` bit pattern.
    Float(u64),
    Int(i64),
    String(String),
    Ref(DomId),
    /// The family index into the client's enum catalog, and the item's value.
    Enum(u16, u32),
    Vector2(u32, u32),
    Vector3(u32, u32, u32),
    Color3(Color3),
    UDim(UDim),
    UDim2(UDim2),
    NumberRange(u32, u32),
    Rect(u32, u32, u32, u32),
    BrickColor(u16),
    /// `GetComponents()` order: position, then the rotation rows.
    CFrame([u32; 12]),
    Float32(u32),
    Int32(i32),
    ContentId(String),
    BinaryString(DomBytes),
    Color3uint8(Color3),
    Vector2int16(i16, i16),
    Vector3int16(i16, i16, i16),
    Ray(u32, u32, u32, u32, u32, u32),
    Region3(Region3),
    Region3int16(i16, i16, i16, i16, i16, i16),
    Axes(Axes),
    Faces(Faces),
    Font(String, u16, u8),
    NumberSequence(Vec<NumberKeypoint>),
    ColorSequence(Vec<ColorKeypoint>),
    PhysicalProperties(Option<[u32; 6]>),
    OptionalCFrame(Option<[u32; 12]>),
    Content(ContentValue),
}

/// The value types Roblox accepts as attribute values.
pub open spec fn spec_is_attribute_safe(value: DomValue) -> bool {
    ||| value is Bool
    ||| value is Float
    ||| value is String
    ||| value is Vector2
    ||| value is Vector3
    ||| value is Color3
    ||| value is UDim
    ||| value is UDim2
    ||| value is NumberRange
    ||| value is Rect
    ||| value is BrickColor
    ||| value is CFrame
    ||| value is Font
    ||| value is NumberSequence
    ||| value is ColorSequence
}

impl DomValue {
    /// Whether the value is acceptable for a Roblox attribute.
    pub fn is_attribute_safe(&self) -> (r: bool)
        ensures
            r == spec_is_attribute_safe(*self),
    {
        match self {
            DomValue::Bool(_) | DomValue::Float(_) | DomValue::String(_) | DomValue::Vector2(
                ..,
            ) | DomValue::Vector3(..) | DomValue::Color3(..) | DomValue::UDim(..) | DomValue::UDim2(
                ..,
            ) | DomValue::NumberRange(..) | DomValue::Rect(..) | DomValue::BrickColor(_)
            | DomValue::CFrame(_) | DomValue::Font(..) | DomValue::NumberSequence(_)
            | DomValue::ColorSequence(_) => true,
            _ => false,
        }
    }
}

} // verus!
