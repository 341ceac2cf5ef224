//! The class-file container: constant pool, fields, methods and attributes.
use vstd::prelude::*;

use vstd::slice::slice_subrange;
use vstd::utf8::{encode_utf8, valid_utf8};

use crate::code::{code_walk, lift_code, lift_ok, lift_succeeds, resolved_from, Code, Instruction, Op};
use crate::error::ParseError;
use crate::reader::{be16, be32, be64, fits, read_u16, read_u32, read_u64, read_u8};
use crate::text::utf8_string;
use crate::types::{encodes, encodes_all, method_shape, MethodDescriptor};

verus! {

/// One entry of the constant pool. `Reserved` fills the slot that the
/// format leaves unused after each `Long` and `Double`, so that the pool is
/// indexed as the format numbers it.
pub enum ConstantInfo {
    Class { name_index: u16 },
    Field { class_index: u16, name_and_type_index: u16 },
    Method { class_index: u16, name_and_type_index: u16 },
    Interface { class_index: u16, name_and_type_index: u16 },
    String { string_index: u16 },
    Integer { bytes: u32 },
    Float { bytes: u32 },
    Long { bytes: u64 },
    Double { bytes: u64 },
    NameAndType { name_index: u16, descriptor_index: u16 },
    UTF8 { text: String },
    MethodHandle { reference_kind: u8, reference_index: u16 },
    MethodType { descriptor_index: u16 },
    InvokeDynamic { bootstrap_method_attr_index: u16, name_and_type_index: u16 },
    Reserved,
}

pub const ACC_PUBLIC: u16 = 0x0001;
pub const ACC_PRIVATE: u16 = 0x0002;
pub const ACC_PROTECTED: u16 = 0x0004;
pub const ACC_STATIC: u16 = 0x0008;
pub const ACC_FINAL: u16 = 0x0010;

/// The bits that a class's access flags may hold.
pub const CLASS_FLAG_MASK: u16 = 0xF631;
/// The bits that a field's access flags may hold.
pub const FIELD_FLAG_MASK: u16 = 0x50DF;
/// The bits that a method's access flags may hold.
pub const METHOD_FLAG_MASK: u16 = 0x1DFF;

/// Access flags of a class.
#[derive(Debug, Clone, Copy, PartialEq, Eq, Structural)]
pub struct ClassAccessFlags {
    pub bits: u16,
}

/// Access flags of a field.
#[derive(Debug, Clone, Copy, PartialEq, Eq, Structural)]
pub struct FieldAccessFlags {
    pub bits: u16,
}

/// Access flags of a method.
#[derive(Debug, Clone, Copy, PartialEq, Eq, Structural)]
pub struct MethodAccessFlags {
    pub bits: u16,
}

impl ClassAccessFlags {
    /// The flags `bits`, if they hold only bits that classes define.
    pub fn from_bits(bits: u16) -> (r: Option<ClassAccessFlags>)
        ensures
            r == (if bits & !CLASS_FLAG_MASK == 0 { Some(ClassAccessFlags { bits }) } else { None }),
    {
        if bits & !CLASS_FLAG_MASK == 0 { Some(ClassAccessFlags { bits }) } else { None }
    }

    /// Whether every bit of `flag` is set.
    pub fn contains(&self, flag: u16) -> (r: bool)
        ensures
            r == (self.bits & flag == flag),
    {
        self.bits & flag == flag
    }
}

impl FieldAccessFlags {
    /// The flags `bits`, if they hold only bits that fields define.
    pub fn from_bits(bits: u16) -> (r: Option<FieldAccessFlags>)
        ensures
            r == (if bits & !FIELD_FLAG_MASK == 0 { Some(FieldAccessFlags { bits }) } else { None }),
    {
        if bits & !FIELD_FLAG_MASK == 0 { Some(FieldAccessFlags { bits }) } else { None }
    }

    /// Whether every bit of `flag` is set.
    pub fn contains(&self, flag: u16) -> (r: bool)
        ensures
            r == (self.bits & flag == flag),
    {
        self.bits & flag == flag
    }
}

impl MethodAccessFlags {
    /// The flags `bits`, if they hold only bits that methods define.
    pub fn from_bits(bits: u16) -> (r: Option<MethodAccessFlags>)
        ensures
            r == (if bits & !METHOD_FLAG_MASK == 0 { Some(MethodAccessFlags { bits }) } else { None }),
    {
        if bits & !METHOD_FLAG_MASK == 0 { Some(MethodAccessFlags { bits }) } else { None }
    }

    /// Whether every bit of `flag` is set.
    pub fn contains(&self, flag: u16) -> (r: bool)
        ensures
            r == (self.bits & flag == flag),
    {
        self.bits & flag == flag
    }
}

/// A parsed class file.
pub struct ClassInfo {
    pub minor_version: u16,
    pub major_version: u16,
    pub constant_pool: ConstantPool,
    pub access_flags: ClassAccessFlags,
    pub this_class: u16,
    pub super_class: u16,
    pub interfaces: Vec<u16>,
    pub fields: Vec<FieldInfo>,
    pub methods: Vec<MethodInfo>,
    pub attributes: Vec<AttributeInfo>,
}

/// A field of a class.
pub struct FieldInfo {
    pub access_flags: FieldAccessFlags,
    pub name_index: u16,
    pub descriptor_index: u16,
    pub attribute_info: Vec<AttributeInfo>,
}

/// A method of a class.
pub struct MethodInfo {
    pub access_flags: MethodAccessFlags,
    pub name_index: u16,
    pub descriptor_index: u16,
    pub attribute_info: Vec<AttributeInfo>,
}

/// The constant pool; index `i` of the format is element `i - 1`.
pub struct ConstantPool(pub Vec<ConstantInfo>);

/// A pool entry as its bytes give it: the numbers it holds, and for a UTF8
/// entry the UTF-8 bytes of its text.
pub enum EntryView {
    Class { name_index: u16 },
    Field { class_index: u16, name_and_type_index: u16 },
    Method { class_index: u16, name_and_type_index: u16 },
    Interface { class_index: u16, name_and_type_index: u16 },
    String { string_index: u16 },
    Integer { bytes: u32 },
    Float { bytes: u32 },
    Long { bytes: u64 },
    Double { bytes: u64 },
    NameAndType { name_index: u16, descriptor_index: u16 },
    Utf8 { bytes: Seq<u8> },
    MethodHandle { reference_kind: u8, reference_index: u16 },
    MethodType { descriptor_index: u16 },
    InvokeDynamic { bootstrap_method_attr_index: u16, name_and_type_index: u16 },
    Reserved,
}

pub open spec fn entry_view(c: ConstantInfo) -> EntryView {
    match c {
        ConstantInfo::Class { name_index } => EntryView::Class { name_index },
        ConstantInfo::Field { class_index, name_and_type_index } => EntryView::Field { class_index, name_and_type_index },
        ConstantInfo::Method { class_index, name_and_type_index } => EntryView::Method { class_index, name_and_type_index },
        ConstantInfo::Interface { class_index, name_and_type_index } => EntryView::Interface { class_index, name_and_type_index },
        ConstantInfo::String { string_index } => EntryView::String { string_index },
        ConstantInfo::Integer { bytes } => EntryView::Integer { bytes },
        ConstantInfo::Float { bytes } => EntryView::Float { bytes },
        ConstantInfo::Long { bytes } => EntryView::Long { bytes },
        ConstantInfo::Double { bytes } => EntryView::Double { bytes },
        ConstantInfo::NameAndType { name_index, descriptor_index } => EntryView::NameAndType { name_index, descriptor_index },
        ConstantInfo::UTF8 { text } => EntryView::Utf8 { bytes: encode_utf8(text@) },
        ConstantInfo::MethodHandle { reference_kind, reference_index } => EntryView::MethodHandle { reference_kind, reference_index },
        ConstantInfo::MethodType { descriptor_index } => EntryView::MethodType { descriptor_index },
        ConstantInfo::InvokeDynamic { bootstrap_method_attr_index, name_and_type_index } => EntryView::InvokeDynamic {
            bootstrap_method_attr_index,
            name_and_type_index,
        },
        ConstantInfo::Reserved => EntryView::Reserved,
    }
}

pub open spec fn pool_view(pool: Seq<ConstantInfo>) -> Seq<EntryView> {
    pool.map_values(|c: ConstantInfo| entry_view(c))
}

impl View for ConstantPool {
    type V = Seq<EntryView>;

    open spec fn view(&self) -> Seq<EntryView> {
        pool_view(self.0@)
    }
}

/// A row of a `Code` attribute's exception table.
#[derive(Debug, Clone, Copy, PartialEq, Eq, Structural)]
pub struct AttributeException {
    pub start_pc: u16,
    pub end_pc: u16,
    pub handler_pc: u16,
    pub catch_type: u16,
}

/// A row of an `InnerClasses` attribute.
#[derive(Debug, Clone, Copy, PartialEq, Eq, Structural)]
pub struct AttributeClass {
    pub inner_class_info_index: u16,
    pub outer_class_info_index: u16,
    pub inner_name_index: u16,
    pub inner_class_access_flags: u16,
}

/// A row of a `LineNumberTable` attribute.
#[derive(Debug, Clone, Copy, PartialEq, Eq, Structural)]
pub struct AttributeLineNumber {
    pub start_pc: u16,
    pub line_number: u16,
}

/// A row of a `LocalVariableTable` attribute.
#[derive(Debug, Clone, Copy, PartialEq, Eq, Structural)]
pub struct AttributeLocalVariable {
    pub start_pc: u16,
    pub length: u16,
    pub name_index: u16,
    pub descriptor_index: u16,
    pub index: u16,
}

/// A row of a `LocalVariableTypeTable` attribute.
#[derive(Debug, Clone, Copy, PartialEq, Eq, Structural)]
pub struct AttributeLocalVariableType {
    pub start_pc: u16,
    pub length: u16,
    pub name_index: u16,
    pub signature_index: u16,
    pub index: u16,
}

/// A row of a `BootstrapMethods` attribute.
pub struct AttributeBootstrapMethod {
    pub bootstrap_method_ref: u16,
    pub bootstrap_arguments: Vec<u16>,
}

/// An attribute of a class, field, method or code body. Names that are not
/// decoded here become `Unparsed`, which keeps only the length.
pub enum AttributeInfo {
    ConstantValue { constant_index: u16 },
    CodeAttribute { code: Code },
    Exceptions { exception_index_table: Vec<u16> },
    InnerClasses { classes: Vec<AttributeClass> },
    EnclosingMethod { class_index: u16, method_index: u16 },
    Synthetic,
    Signature { signature_index: u16 },
    SourceFile { source_file_index: u16 },
    SourceDebugExtension { debug_extension: Vec<u8> },
    LineNumberTable { line_number_table: Vec<AttributeLineNumber> },
    LocalVariableTable { local_variable_table: Vec<AttributeLocalVariable> },
    LocalVariableTypeTable { local_variable_type_table: Vec<AttributeLocalVariableType> },
    Deprecated,
    BootstrapMethods { bootstrap_methods: Vec<AttributeBootstrapMethod> },
    Unparsed { length: u32 },
}

/// The number of bytes after the tag of a constant with tag `tag`, when
/// it does not depend on the entry.
pub open spec fn fixed_size(tag: u8) -> Option<int> {
    if tag == 7 || tag == 8 || tag == 16 {
        Some(2)
    } else if tag == 9 || tag == 10 || tag == 11 || tag == 12 || tag == 18 || tag == 3 || tag == 4 {
        Some(4)
    } else if tag == 5 || tag == 6 {
        Some(8)
    } else if tag == 15 {
        Some(3)
    } else {
        None
    }
}

/// Where the constant that starts at `pos` ends, or why it cannot be read.
pub open spec fn constant_end(b: Seq<u8>, pos: int) -> Result<int, ParseError> {
    if !fits(b, pos, 1) {
        Err(ParseError::UnexpectedEof)
    } else if b[pos] == 1 {
        if !fits(b, pos + 1, 2) {
            Err(ParseError::UnexpectedEof)
        } else if !fits(b, pos + 3, be16(b, pos + 1)) {
            Err(ParseError::UnexpectedEof)
        } else if !valid_utf8(b.subrange(pos + 3, pos + 3 + be16(b, pos + 1))) {
            Err(ParseError::UtfDecodeError)
        } else {
            Ok(pos + 3 + be16(b, pos + 1))
        }
    } else {
        match fixed_size(b[pos]) {
            Some(n) => if fits(b, pos + 1, n) { Ok(pos + 1 + n) } else { Err(ParseError::UnexpectedEof) },
            None => Err(ParseError::UnknownConstantTag),
        }
    }
}

/// The bytes from `pos` write the constant `c`.
pub open spec fn constant_at(b: Seq<u8>, pos: int, c: ConstantInfo) -> bool {
    let u1 = be16(b, pos + 1);
    let u2 = be16(b, pos + 3);
    match c {
        ConstantInfo::Class { name_index } => b[pos] == 7 && name_index == u1,
        ConstantInfo::Field { class_index, name_and_type_index } => b[pos] == 9 && class_index == u1 && name_and_type_index == u2,
        ConstantInfo::Method { class_index, name_and_type_index } => b[pos] == 10 && class_index == u1 && name_and_type_index == u2,
        ConstantInfo::Interface { class_index, name_and_type_index } => b[pos] == 11 && class_index == u1 && name_and_type_index == u2,
        ConstantInfo::String { string_index } => b[pos] == 8 && string_index == u1,
        ConstantInfo::Integer { bytes } => b[pos] == 3 && bytes == be32(b, pos + 1),
        ConstantInfo::Float { bytes } => b[pos] == 4 && bytes == be32(b, pos + 1),
        ConstantInfo::Long { bytes } => b[pos] == 5 && bytes == be64(b, pos + 1),
        ConstantInfo::Double { bytes } => b[pos] == 6 && bytes == be64(b, pos + 1),
        ConstantInfo::NameAndType { name_index, descriptor_index } => b[pos] == 12 && name_index == u1 && descriptor_index == u2,
        ConstantInfo::UTF8 { text } => b[pos] == 1 && encode_utf8(text@) == b.subrange(pos + 3, pos + 3 + u1),
        ConstantInfo::MethodHandle { reference_kind, reference_index } => b[pos] == 15 && reference_kind == b[pos + 1]
            && reference_index == be16(b, pos + 2),
        ConstantInfo::MethodType { descriptor_index } => b[pos] == 16 && descriptor_index == u1,
        ConstantInfo::InvokeDynamic { bootstrap_method_attr_index, name_and_type_index } => b[pos] == 18
            && bootstrap_method_attr_index == u1 && name_and_type_index == u2,
        ConstantInfo::Reserved => false,
    }
}

/// A `Long` or a `Double`, which take two slots of the pool.
pub open spec fn is_wide(c: ConstantInfo) -> bool {
    c is Long || c is Double
}

impl ConstantInfo {
    /// Reads the constant that starts at `pos`; returns it with the
    /// position after it.
    pub fn parse(b: &[u8], pos: usize) -> (r: Result<(ConstantInfo, usize), ParseError>)
        ensures
            match r {
                Ok((c, end)) => constant_end(b@, pos as int) == Ok::<int, ParseError>(end as int) && constant_at(b@, pos as int, c),
                Err(e) => constant_end(b@, pos as int) == Err::<int, ParseError>(e),
            },
    {
        if pos >= b.len() {
            return Err(ParseError::UnexpectedEof);
        }
        let tag = b[pos];
        let p = pos + 1;
        if tag == 1 {
            let (len, p) = match read_u16(b, p) {
                Ok(x) => x,
                Err(e) => return Err(e),
            };
            if b.len() - p < len as usize {
                return Err(ParseError::UnexpectedEof);
            }
            let end = p + len as usize;
            let data = slice_subrange(b, p, end);
            assert(data@ == b@.subrange(pos + 3, pos + 3 + be16(b@, pos + 1)));
            return match utf8_string(data) {
                Some(text) => Ok((ConstantInfo::UTF8 { text }, end)),
                None => Err(ParseError::UtfDecodeError),
            };
        }
        let (c, end) = if tag == 7 {
            let (v, e) = match read_u16(b, p) {
                Ok(x) => x,
                Err(e) => return Err(e),
            };
            (ConstantInfo::Class { name_index: v }, e)
        } else if tag == 8 {
            let (v, e) = match read_u16(b, p) {
                Ok(x) => x,
                Err(e) => return Err(e),
            };
            (ConstantInfo::String { string_index: v }, e)
        } else if tag == 16 {
            let (v, e) = match read_u16(b, p) {
                Ok(x) => x,
                Err(e) => return Err(e),
            };
            (ConstantInfo::MethodType { descriptor_index: v }, e)
        } else if tag == 3 {
            let (v, e) = match read_u32(b, p) {
                Ok(x) => x,
                Err(e) => return Err(e),
            };
            (ConstantInfo::Integer { bytes: v }, e)
        } else if tag == 4 {
            let (v, e) = match read_u32(b, p) {
                Ok(x) => x,
                Err(e) => return Err(e),
            };
            (ConstantInfo::Float { bytes: v }, e)
        } else if tag == 5 {
            let (v, e) = match read_u64(b, p) {
                Ok(x) => x,
                Err(e) => return Err(e),
            };
            (ConstantInfo::Long { bytes: v }, e)
        } else if tag == 6 {
            let (v, e) = match read_u64(b, p) {
                Ok(x) => x,
                Err(e) => return Err(e),
            };
            (ConstantInfo::Double { bytes: v }, e)
        } else if tag == 15 {
            if b.len() - p < 3 {
                return Err(ParseError::UnexpectedEof);
            }
            let (reference_kind, q) = match read_u8(b, p) {
                Ok(x) => x,
                Err(e) => return Err(e),
            };
            let (reference_index, e) = match read_u16(b, q) {
                Ok(x) => x,
                Err(e) => return Err(e),
            };
            (ConstantInfo::MethodHandle { reference_kind, reference_index }, e)
        } else if tag == 9 || tag == 10 || tag == 11 || tag == 12 || tag == 18 {
            if b.len() - p < 4 {
                return Err(ParseError::UnexpectedEof);
            }
            let (x, q) = match read_u16(b, p) {
                Ok(x) => x,
                Err(e) => return Err(e),
            };
            let (y, e) = match read_u16(b, q) {
                Ok(x) => x,
                Err(e) => return Err(e),
            };
            let c = if tag == 9 {
                ConstantInfo::Field { class_index: x, name_and_type_index: y }
            } else if tag == 10 {
                ConstantInfo::Method { class_index: x, name_and_type_index: y }
            } else if tag == 11 {
                ConstantInfo::Interface { class_index: x, name_and_type_index: y }
            } else if tag == 12 {
                ConstantInfo::NameAndType { name_index: x, descriptor_index: y }
            } else {
                ConstantInfo::InvokeDynamic { bootstrap_method_attr_index: x, name_and_type_index: y }
            };
            (c, e)
        } else {
            return Err(ParseError::UnknownConstantTag);
        };
        Ok((c, end))
    }
}

/// The entries `es` are written one after another from `pos` to `end`;
/// each `Long` or `Double` is followed by a `Reserved` entry that takes no
/// bytes.
pub open spec fn pool_layout(b: Seq<u8>, pos: int, end: int, es: Seq<ConstantInfo>) -> bool
    decreases es.len(),
{
    if es.len() == 0 {
        pos == end
    } else {
        &&& constant_end(b, pos) is Ok
        &&& constant_at(b, pos, es[0])
        &&& if is_wide(es[0]) {
            es.len() >= 2 && es[1] is Reserved && pool_layout(b, constant_end(b, pos)->Ok_0, end, es.skip(2))
        } else {
            pool_layout(b, constant_end(b, pos)->Ok_0, end, es.skip(1))
        }
    }
}

/// The entries that one read adds to the pool: the constant, and a
/// `Reserved` after a wide one.
pub open spec fn step_entries(c: ConstantInfo) -> Seq<ConstantInfo> {
    if is_wide(c) { seq![c, ConstantInfo::Reserved] } else { seq![c] }
}

/// The view of the constant that starts at `pos`.
pub open spec fn entry_v_at(b: Seq<u8>, pos: int) -> EntryView {
    let u1 = be16(b, pos + 1) as u16;
    let u2 = be16(b, pos + 3) as u16;
    let tag = b[pos];
    if tag == 7 {
        EntryView::Class { name_index: u1 }
    } else if tag == 9 {
        EntryView::Field { class_index: u1, name_and_type_index: u2 }
    } else if tag == 10 {
        EntryView::Method { class_index: u1, name_and_type_index: u2 }
    } else if tag == 11 {
        EntryView::Interface { class_index: u1, name_and_type_index: u2 }
    } else if tag == 8 {
        EntryView::String { string_index: u1 }
    } else if tag == 3 {
        EntryView::Integer { bytes: be32(b, pos + 1) as u32 }
    } else if tag == 4 {
        EntryView::Float { bytes: be32(b, pos + 1) as u32 }
    } else if tag == 5 {
        EntryView::Long { bytes: be64(b, pos + 1) as u64 }
    } else if tag == 6 {
        EntryView::Double { bytes: be64(b, pos + 1) as u64 }
    } else if tag == 12 {
        EntryView::NameAndType { name_index: u1, descriptor_index: u2 }
    } else if tag == 1 {
        EntryView::Utf8 { bytes: b.subrange(pos + 3, pos + 3 + be16(b, pos + 1)) }
    } else if tag == 15 {
        EntryView::MethodHandle { reference_kind: b[pos + 1], reference_index: be16(b, pos + 2) as u16 }
    } else if tag == 16 {
        EntryView::MethodType { descriptor_index: u1 }
    } else {
        EntryView::InvokeDynamic { bootstrap_method_attr_index: u1, name_and_type_index: u2 }
    }
}

/// The pool that fills `slots` slots from `pos`: the view of each entry, a
/// `Reserved` entry after each `Long` and `Double`, and where it ends; or
/// the error of the first constant that cannot be read.
pub open spec fn pool_view_at(b: Seq<u8>, pos: int, slots: int) -> Result<(Seq<EntryView>, int), ParseError>
    decreases slots,
{
    if slots <= 0 {
        Ok((Seq::empty(), pos))
    } else {
        match constant_end(b, pos) {
            Err(e) => Err(e),
            Ok(e) => {
                let wide = b[pos] == 5 || b[pos] == 6;
                let step = if wide { seq![entry_v_at(b, pos), EntryView::Reserved] } else { seq![entry_v_at(b, pos)] };
                let left = if wide { slots - 2 } else { slots - 1 };
                match pool_view_at(b, e, if left < 0 { 0 } else { left }) {
                    Ok((rest, end)) => Ok((step + rest, end)),
                    Err(x) => Err(x),
                }
            },
        }
    }
}

/// The views `v` in front of the pool `r`.
pub open spec fn prepend_pool(v: Seq<EntryView>, r: Result<(Seq<EntryView>, int), ParseError>) -> Result<(Seq<EntryView>, int), ParseError> {
    match r {
        Ok((rest, end)) => Ok((v + rest, end)),
        Err(e) => Err(e),
    }
}

proof fn lemma_entry_view(b: Seq<u8>, pos: int, c: ConstantInfo)
    requires
        constant_end(b, pos) is Ok,
        constant_at(b, pos, c),
    ensures
        entry_view(c) == entry_v_at(b, pos),
        is_wide(c) == (b[pos] == 5 || b[pos] == 6),
{
}

proof fn lemma_pool_layout_append(b: Seq<u8>, pos: int, p: int, es: Seq<ConstantInfo>, c: ConstantInfo)
    requires
        pool_layout(b, pos, p, es),
        constant_end(b, p) is Ok,
        constant_at(b, p, c),
        !(c is Reserved),
    ensures
        pool_layout(b, pos, constant_end(b, p)->Ok_0, es + step_entries(c)),
    decreases es.len(),
{
    let e = constant_end(b, pos);
    assert(pool_layout(b, constant_end(b, p)->Ok_0, constant_end(b, p)->Ok_0, Seq::<ConstantInfo>::empty()));
    if es.len() == 0 {
        assert(es + step_entries(c) =~= step_entries(c));
        if is_wide(c) {
            assert(step_entries(c).skip(2) =~= Seq::<ConstantInfo>::empty());
        } else {
            assert(step_entries(c).skip(1) =~= Seq::<ConstantInfo>::empty());
        }
    } else if is_wide(es[0]) {
        lemma_pool_layout_append(b, e->Ok_0, p, es.skip(2), c);
        assert((es + step_entries(c)).skip(2) =~= es.skip(2) + step_entries(c));
    } else {
        lemma_pool_layout_append(b, e->Ok_0, p, es.skip(1), c);
        assert((es + step_entries(c)).skip(1) =~= es.skip(1) + step_entries(c));
    }
}

impl ConstantPool {
    /// Reads the pool count at `pos` and then the entries; a count of `N`
    /// announces `N - 1` slots.
    pub fn parse(b: &[u8], pos: usize) -> (r: Result<(ConstantPool, usize), ParseError>)
        ensures
            fits(b@, pos as int, 2) ==> match r {
                Ok((pool, end)) => pool_view_at(b@, pos + 2, if be16(b@, pos as int) == 0 { 0 } else { be16(b@, pos as int) - 1 })
                    == Ok::<(Seq<EntryView>, int), ParseError>((pool@, end as int)),
                Err(e) => pool_view_at(b@, pos + 2, if be16(b@, pos as int) == 0 { 0 } else { be16(b@, pos as int) - 1 })
                    == Err::<(Seq<EntryView>, int), ParseError>(e),
            },
            match r {
                Ok((pool, end)) => fits(b@, pos as int, 2) && ({
                    let slots = if be16(b@, pos as int) == 0 { 0 } else { be16(b@, pos as int) - 1 };
                    &&& pool_layout(b@, pos + 2, end as int, pool.0@)
                    &&& end <= b.len()
                    &&& slots <= pool.0.len() <= slots + 1
                    &&& pool.0.len() == slots + 1 ==> slots > 0 && is_wide(pool.0@[slots - 1])
                }),
                Err(e) => !fits(b@, pos as int, 2) && e == ParseError::UnexpectedEof
                    || exists|es: Seq<ConstantInfo>, p: int| #![trigger pool_layout(b@, pos + 2, p, es)]
                        es.len() < be16(b@, pos as int) - 1 && pool_layout(b@, pos + 2, p, es)
                        && constant_end(b@, p) == Err::<int, ParseError>(e),
            },
    {
        let rc = read_u16(b, pos);
        let (count, start) = match rc {
            Ok(x) => x,
            Err(e) => return Err(e),
        };
        assert(fits(b@, pos as int, 2));
        assert(pos + 2 <= b.len());
        assert(start == pos + 2);
        let slots: usize = if count == 0 { 0 } else { (count - 1) as usize };
        let mut entries: Vec<ConstantInfo> = Vec::new();
        let mut p = start;
        proof {
            assert(pool_layout(b@, start as int, start as int, Seq::<ConstantInfo>::empty()));
        }
        while entries.len() < slots
            invariant
                start == pos + 2,
                fits(b@, pos as int, 2),
                count == be16(b@, pos as int),
                slots == if count == 0 { 0 } else { count - 1 },
                pool_layout(b@, start as int, p as int, entries@),
                pool_view_at(b@, start as int, slots as int) == prepend_pool(pool_view(entries@), pool_view_at(b@, p as int, slots - entries.len())),
                entries.len() <= slots + 1,
                entries.len() == slots + 1 ==> slots > 0 && is_wide(entries@[slots - 1]),
                p <= b.len(),
            decreases slots + 1 - entries.len(),
        {
            let (c, end) = match ConstantInfo::parse(b, p) {
                Ok(x) => x,
                Err(e) => {
                    assert(constant_end(b@, p as int) == Err::<int, ParseError>(e));
                    assert(pool_view_at(b@, p as int, slots - entries.len()) == Err::<(Seq<EntryView>, int), ParseError>(e));
                    return Err(e);
                },
            };
            proof {
                lemma_pool_layout_append(b@, start as int, p as int, entries@, c);
            }
            let wide = match c {
                ConstantInfo::Long { .. } | ConstantInfo::Double { .. } => true,
                _ => false,
            };
            let ghost before = entries@;
            let ghost cv = c;
            entries.push(c);
            if wide {
                entries.push(ConstantInfo::Reserved);
            }
            proof {
                assert(entries@ =~= before + step_entries(cv));
                lemma_entry_view(b@, p as int, cv);
                let stepv = pool_view(step_entries(cv));
                let wide_b = b@[p as int] == 5 || b@[p as int] == 6;
                if wide_b {
                    assert(stepv =~= seq![entry_v_at(b@, p as int), EntryView::Reserved]);
                } else {
                    assert(stepv =~= seq![entry_v_at(b@, p as int)]);
                }
                assert(pool_view(entries@) =~= pool_view(before) + stepv);
                let rem = slots - before.len();
                let tail = pool_view_at(b@, end as int, slots - entries.len());
                assert(pool_view_at(b@, end as int, slots - entries.len()) == pool_view_at(b@, end as int,
                    if slots - entries.len() < 0 { 0 } else { slots - entries.len() }));
                assert(pool_view_at(b@, p as int, rem) == prepend_pool(stepv, tail));
                if let Ok((rest, e2)) = tail {
                    assert(pool_view(before) + (stepv + rest) =~= (pool_view(before) + stepv) + rest);
                }
            }
            p = end;
        }
        proof {
            assert(pool_view(entries@) + Seq::<EntryView>::empty() =~= pool_view(entries@));
        }
        Ok((ConstantPool(entries), p))
    }
}

impl ConstantPool {
    /// The entry at one-based index `index`; `None` for zero and for an
    /// index past the end.
    pub fn get(&self, index: u16) -> (r: Option<&ConstantInfo>)
        ensures
            match r {
                Some(c) => 1 <= index <= self.0.len() && *c == self.0@[index - 1],
                None => index == 0 || index > self.0.len(),
            },
    {
        if index >= 1 && (index as usize) <= self.0.len() {
            Some(&self.0[index as usize - 1])
        } else {
            None
        }
    }
}

impl AttributeException {
    /// Reads one row of an exception table.
    pub fn parse(b: &[u8], pos: usize) -> (r: Result<(AttributeException, usize), ParseError>)
        ensures
            match r {
                Ok((x, end)) => fits(b@, pos as int, 8) && end == pos + 8
                    && x.start_pc == be16(b@, pos as int) && x.end_pc == be16(b@, pos + 2)
                    && x.handler_pc == be16(b@, pos + 4) && x.catch_type == be16(b@, pos + 6),
                Err(e) => !fits(b@, pos as int, 8) && e == ParseError::UnexpectedEof,
            },
    {
        if pos > b.len() || b.len() - pos < 8 {
            return Err(ParseError::UnexpectedEof);
        }
        let (start_pc, p) = match read_u16(b, pos) { Ok(x) => x, Err(e) => return Err(e) };
        let (end_pc, p) = match read_u16(b, p) { Ok(x) => x, Err(e) => return Err(e) };
        let (handler_pc, p) = match read_u16(b, p) { Ok(x) => x, Err(e) => return Err(e) };
        let (catch_type, p) = match read_u16(b, p) { Ok(x) => x, Err(e) => return Err(e) };
        Ok((AttributeException { start_pc, end_pc, handler_pc, catch_type }, p))
    }
}

/// Compares two byte strings.
pub fn bytes_eq(a: &[u8], b: &[u8]) -> (r: bool)
    ensures
        r == (a@ == b@),
{
    if a.len() != b.len() {
        return false;
    }
    let mut i: usize = 0;
    while i < a.len()
        invariant
            a.len() == b.len(),
            i <= a.len(),
            forall|j: int| 0 <= j < i ==> a@[j] == b@[j],
        decreases a.len() - i,
    {
        if a[i] != b[i] {
            return false;
        }
        i = i + 1;
    }
    assert(a@ =~= b@);
    true
}

/// `n` big-endian `u16` values from `pos`.
pub open spec fn u16s_at(b: Seq<u8>, pos: int, n: int) -> Seq<u16> {
    Seq::new(n as nat, |i: int| be16(b, pos + 2 * i) as u16)
}

/// Reads `n` big-endian `u16` values from `pos`.
pub fn read_u16s(b: &[u8], pos: usize, n: usize) -> (r: Result<(Vec<u16>, usize), ParseError>)
    ensures
        match r {
            Ok((v, end)) => fits(b@, pos as int, 2 * n) && end == pos + 2 * n && v@ == u16s_at(b@, pos as int, n as int),
            Err(e) => !fits(b@, pos as int, 2 * n) && e == ParseError::UnexpectedEof,
        },
{
    if pos > b.len() || (b.len() - pos) / 2 < n {
        return Err(ParseError::UnexpectedEof);
    }
    let mut v: Vec<u16> = Vec::new();
    let mut i: usize = 0;
    let mut p = pos;
    while i < n
        invariant
            fits(b@, pos as int, 2 * n),
            i <= n,
            p == pos + 2 * i,
            v@ =~= u16s_at(b@, pos as int, i as int),
        decreases n - i,
    {
        assert(p + 2 <= b.len());
        let (x, q) = match read_u16(b, p) { Ok(x) => x, Err(e) => return Err(e) };
        v.push(x);
        p = q;
        i = i + 1;
    }
    Ok((v, p))
}

/// The UTF-8 bytes of the UTF8 entry at one-based index `i` of `pool`.
pub open spec fn utf8_entry(pool: Seq<EntryView>, i: int) -> Option<Seq<u8>> {
    if 1 <= i <= pool.len() {
        match pool[i - 1] {
            EntryView::Utf8 { bytes } => Some(bytes),
            _ => None,
        }
    } else {
        None
    }
}

pub open spec fn name_is(name: Seq<u8>, lit: &str) -> bool {
    name == encode_utf8(lit@)
}

/// A table of `u16` rows of `width` bytes each, behind its row count.
pub open spec fn rows_fit(sub: Seq<u8>, width: int) -> bool {
    fits(sub, 0, 2) && fits(sub, 2, width * be16(sub, 0))
}

/// `n` bootstrap methods from `pos`: each a method reference, an argument
/// count, and that many arguments.
pub open spec fn bootstrap_ok(sub: Seq<u8>, pos: int, n: nat) -> bool
    decreases n,
{
    if n == 0 {
        true
    } else {
        fits(sub, pos, 4) && fits(sub, pos + 4, 2 * be16(sub, pos + 2))
            && bootstrap_ok(sub, pos + 4 + 2 * be16(sub, pos + 2), (n - 1) as nat)
    }
}

/// The `n` bootstrap methods from `pos`: each method reference with its
/// arguments.
pub open spec fn bootstrap_entries(sub: Seq<u8>, pos: int, n: nat) -> Seq<(u16, Seq<u16>)>
    decreases n,
{
    if n == 0 {
        Seq::empty()
    } else {
        let k = be16(sub, pos + 2);
        seq![(be16(sub, pos) as u16, u16s_at(sub, pos + 4, k))] + bootstrap_entries(sub, pos + 4 + 2 * k, (n - 1) as nat)
    }
}

/// The bootstrap methods `v` are the entries `e`.
pub open spec fn bootstrap_matches(v: Seq<AttributeBootstrapMethod>, e: Seq<(u16, Seq<u16>)>) -> bool {
    &&& v.len() == e.len()
    &&& forall|i: int| 0 <= i < v.len() ==> (#[trigger] v[i]).bootstrap_method_ref == e[i].0
        && v[i].bootstrap_arguments@ == e[i].1
}

/// `i` is zero or a valid index into a pool of `len` entries.
pub open spec fn zero_or_valid(i: u16, len: int) -> bool {
    i == 0 || valid_index(i, len)
}

/// The pool indices that the body `sub` of an attribute named `name` holds
/// are valid; zero stands where the format allows "none".
pub open spec fn body_refs_ok(name: Seq<u8>, sub: Seq<u8>, pool: Seq<EntryView>) -> bool {
    let len = pool.len() as int;
    let n = be16(sub, 0);
    if name_is(name, "ConstantValue") {
        valid_index(be16(sub, 0) as u16, len)
    } else if name_is(name, "Code") {
        true
    } else if name_is(name, "Exceptions") {
        forall|i: int| 0 <= i < n ==> valid_index(#[trigger] u16s_at(sub, 2, n)[i], len)
    } else if name_is(name, "EnclosingMethod") {
        valid_index(be16(sub, 0) as u16, len) && zero_or_valid(be16(sub, 2) as u16, len)
    } else if name_is(name, "Synthetic") || name_is(name, "Deprecated") {
        true
    } else if name_is(name, "Signature") || name_is(name, "SourceFile") {
        valid_index(be16(sub, 0) as u16, len)
    } else if name_is(name, "SourceDebugExtension") || name_is(name, "LineNumberTable") {
        true
    } else if name_is(name, "InnerClasses") {
        forall|i: int| 0 <= i < n ==> valid_index(#[trigger] be16(sub, 2 + 8 * i) as u16, len)
            && zero_or_valid(be16(sub, 4 + 8 * i) as u16, len) && zero_or_valid(be16(sub, 6 + 8 * i) as u16, len)
    } else if name_is(name, "LocalVariableTable") || name_is(name, "LocalVariableTypeTable") {
        forall|i: int| 0 <= i < n ==> valid_index(#[trigger] be16(sub, 6 + 10 * i) as u16, len)
            && valid_index(be16(sub, 8 + 10 * i) as u16, len)
    } else if name_is(name, "BootstrapMethods") {
        let e = bootstrap_entries(sub, 2, n as nat);
        forall|i: int| 0 <= i < e.len() ==> valid_index((#[trigger] e[i]).0, len)
            && forall|j: int| 0 <= j < e[i].1.len() ==> valid_index(#[trigger] e[i].1[j], len)
    } else {
        true
    }
}

/// The pool index that the operand of `inst` holds, if any, is valid.
pub open spec fn inst_refs_ok(inst: Instruction, len: int) -> bool {
    match inst {
        Instruction::ConstantPool { pool } => valid_index(pool as u16, len),
        Instruction::ConstantPoolWide { pool } => valid_index(pool, len),
        Instruction::Cast { pool_pos } => valid_index(pool_pos, len),
        Instruction::Instanceof { pool_pos } => valid_index(pool_pos, len),
        Instruction::New { pool_pos } => valid_index(pool_pos, len),
        Instruction::GetField { pool_pos } => valid_index(pool_pos, len),
        Instruction::GetStaticField { pool_pos } => valid_index(pool_pos, len),
        Instruction::PutField { pool_pos } => valid_index(pool_pos, len),
        Instruction::PutStaticField { pool_pos } => valid_index(pool_pos, len),
        Instruction::InvokeMethod { pool_pos } => valid_index(pool_pos, len),
        _ => true,
    }
}

/// The instructions of the code bytes `code` and the exception table rows
/// from `t` hold valid pool indices; a catch type of zero catches all.
pub open spec fn code_refs_ok(b: Seq<u8>, code: Seq<u8>, t: int, pool: Seq<EntryView>) -> bool {
    &&& code_walk(code, 0) matches Ok(w) && forall|k: int| 0 <= k < w.len() ==> inst_refs_ok(#[trigger] w[k].1.inst, pool.len() as int)
    &&& forall|i: int| 0 <= i < be16(b, t) ==> zero_or_valid(#[trigger] be16(b, t + 8 + 8 * i) as u16, pool.len() as int)
}

/// The body `sub` of an attribute named `name` can be decoded.
pub open spec fn body_ok(name: Seq<u8>, sub: Seq<u8>, pool: Seq<EntryView>) -> bool
    decreases sub.len(), 3int, 0int,
{
    if name_is(name, "ConstantValue") {
        fits(sub, 0, 2)
    } else if name_is(name, "Code") {
        code_ok(sub, 0, pool)
    } else if name_is(name, "Exceptions") {
        rows_fit(sub, 2)
    } else if name_is(name, "EnclosingMethod") {
        fits(sub, 0, 4)
    } else if name_is(name, "Synthetic") || name_is(name, "Deprecated") {
        true
    } else if name_is(name, "Signature") || name_is(name, "SourceFile") {
        fits(sub, 0, 2)
    } else if name_is(name, "SourceDebugExtension") {
        true
    } else if name_is(name, "LineNumberTable") {
        rows_fit(sub, 4)
    } else if name_is(name, "InnerClasses") {
        rows_fit(sub, 8)
    } else if name_is(name, "LocalVariableTable") || name_is(name, "LocalVariableTypeTable") {
        rows_fit(sub, 10)
    } else if name_is(name, "BootstrapMethods") {
        fits(sub, 0, 2) && bootstrap_ok(sub, 2, be16(sub, 0) as nat)
    } else {
        true
    }
}

/// The `Code` attribute body at `pos` can be decoded: its header, its code,
/// which lifts, its exception table and its nested attributes.
pub open spec fn code_ok(b: Seq<u8>, pos: int, pool: Seq<EntryView>) -> bool
    decreases b.len(), 2int, 0int,
{
    let len = be32(b, pos + 4);
    let t = pos + 8 + len;
    let u = t + 2 + 8 * be16(b, t);
    &&& fits(b, pos, 8)
    &&& fits(b, pos + 8, len)
    &&& len < 4294967295
    &&& lift_succeeds(b.subrange(pos + 8, t))
    &&& code_refs_ok(b, b.subrange(pos + 8, t), t, pool)
    &&& fits(b, t, 2)
    &&& fits(b, t + 2, 8 * be16(b, t))
    &&& fits(b, u, 2)
    &&& attrs_ok(b, u + 2, be16(b, u) as nat, pool)
}

/// `n` attributes from `pos` can be decoded.
pub open spec fn attrs_ok(b: Seq<u8>, pos: int, n: nat, pool: Seq<EntryView>) -> bool
    decreases b.len(), 1int, n,
{
    if n == 0 {
        true
    } else {
        attr_ok(b, pos, pool) && attrs_ok(b, attr_end(b, pos), (n - 1) as nat, pool)
    }
}

/// The attribute at `pos` can be decoded: header, body of the given length,
/// a name that the pool gives as UTF8 text, and a body that decodes.
pub open spec fn attr_ok(b: Seq<u8>, pos: int, pool: Seq<EntryView>) -> bool
    decreases b.len(), 0int, 0int,
{
    &&& fits(b, pos, 6)
    &&& fits(b, pos + 6, be32(b, pos + 2))
    &&& utf8_entry(pool, be16(b, pos)) matches Some(name) && body_ok(name, b.subrange(pos + 6, attr_end(b, pos)), pool)
        && body_refs_ok(name, b.subrange(pos + 6, attr_end(b, pos)), pool)
}

/// Where `n` attributes that start at `pos` end.
pub open spec fn attrs_end(b: Seq<u8>, pos: int, n: nat) -> int
    decreases n,
{
    if n == 0 { pos } else { attrs_end(b, attr_end(b, pos), (n - 1) as nat) }
}

proof fn lemma_layout_end(b: Seq<u8>, pos: int, end: int, pool: Seq<EntryView>, v: Seq<AttributeInfo>)
    requires
        attributes_layout(b, pos, end, pool, v),
    ensures
        end == attrs_end(b, pos, v.len()),
    decreases v.len(),
{
    if v.len() > 0 {
        lemma_layout_end(b, attr_end(b, pos), end, pool, v.skip(1));
    }
}

/// Where the `Code` attribute body at `pos` ends: after its nested
/// attributes.
pub open spec fn code_end(b: Seq<u8>, pos: int) -> int {
    let t = pos + 8 + be32(b, pos + 4);
    let u = t + 2 + 8 * be16(b, t);
    attrs_end(b, u + 2, be16(b, u) as nat)
}

/// The errors that the code bytes `code` decide: a failing instruction
/// gives its own error, a branch out of the code gives `JumpOutOfRange`.
pub open spec fn code_error<T>(code: Seq<u8>, r: Result<T, ParseError>) -> bool {
    match code_walk(code, 0) {
        Err(e) => r == Err::<T, ParseError>(e),
        Ok(_) => !lift_succeeds(code) ==> r == Err::<T, ParseError>(ParseError::JumpOutOfRange),
    }
}

/// The `Code` attribute body from `pos` holds `c`: the two
/// limits, the code bytes and their lifting, the exception table and the
/// nested attributes.
pub open spec fn code_body(b: Seq<u8>, pos: int, pool: Seq<EntryView>, c: Code) -> bool
    decreases b.len(), 2int, 0int,
{
    let len = be32(b, pos + 4);
    let t = pos + 8 + len;
    let u = t + 2 + 8 * c.exception_table.len();
    &&& fits(b, pos, 8)
    &&& c.max_stack == be16(b, pos)
    &&& c.max_locals == be16(b, pos + 2)
    &&& fits(b, pos + 8, len)
    &&& lift_ok(b.subrange(pos + 8, t), c.code@, c.code_chunks@)
    &&& code_refs_ok(b, b.subrange(pos + 8, t), t, pool)
    &&& fits(b, t, 2)
    &&& c.exception_table.len() == be16(b, t)
    &&& forall|i: int| 0 <= i < c.exception_table.len() ==> {
        let row = #[trigger] c.exception_table@[i];
        let q = t + 2 + 8 * i;
        row.start_pc == be16(b, q) && row.end_pc == be16(b, q + 2) && row.handler_pc == be16(b, q + 4)
            && row.catch_type == be16(b, q + 6)
    }
    &&& fits(b, u, 2)
    &&& c.attribute_info.len() == be16(b, u)
    &&& attributes_layout(b, u + 2, attrs_end(b, u + 2, c.attribute_info@.len()), pool, c.attribute_info@)
}

/// What the body `sub` of an attribute named `name` decodes to. Names not
/// decoded here give `Unparsed`.
pub open spec fn attribute_body(name: Seq<u8>, sub: Seq<u8>, pool: Seq<EntryView>, a: AttributeInfo) -> bool
    decreases sub.len(), 3int, 0int,
{
    if name_is(name, "ConstantValue") {
        fits(sub, 0, 2) && a == (AttributeInfo::ConstantValue { constant_index: be16(sub, 0) as u16 })
    } else if name_is(name, "Code") {
        a matches AttributeInfo::CodeAttribute { code } && code_body(sub, 0, pool, code)
    } else if name_is(name, "Exceptions") {
        fits(sub, 0, 2) && (a matches AttributeInfo::Exceptions { exception_index_table }
            && exception_index_table@ == u16s_at(sub, 2, be16(sub, 0)))
    } else if name_is(name, "EnclosingMethod") {
        fits(sub, 0, 4) && a == (AttributeInfo::EnclosingMethod { class_index: be16(sub, 0) as u16, method_index: be16(sub, 2) as u16 })
    } else if name_is(name, "Synthetic") {
        a is Synthetic
    } else if name_is(name, "Deprecated") {
        a is Deprecated
    } else if name_is(name, "Signature") {
        fits(sub, 0, 2) && a == (AttributeInfo::Signature { signature_index: be16(sub, 0) as u16 })
    } else if name_is(name, "SourceFile") {
        fits(sub, 0, 2) && a == (AttributeInfo::SourceFile { source_file_index: be16(sub, 0) as u16 })
    } else if name_is(name, "SourceDebugExtension") {
        a matches AttributeInfo::SourceDebugExtension { debug_extension } && debug_extension@ == sub
    } else if name_is(name, "LineNumberTable") {
        fits(sub, 0, 2) && (a matches AttributeInfo::LineNumberTable { line_number_table }
            && line_number_table.len() == be16(sub, 0)
            && forall|i: int| 0 <= i < line_number_table.len() ==>
                (#[trigger] line_number_table@[i]).start_pc == be16(sub, 2 + 4 * i)
                && line_number_table@[i].line_number == be16(sub, 4 + 4 * i))
    } else if name_is(name, "InnerClasses") {
        fits(sub, 0, 2) && (a matches AttributeInfo::InnerClasses { classes }
            && classes.len() == be16(sub, 0)
            && forall|i: int| 0 <= i < classes.len() ==> {
                let row = #[trigger] classes@[i];
                let q = 2 + 8 * i;
                row.inner_class_info_index == be16(sub, q) && row.outer_class_info_index == be16(sub, q + 2)
                    && row.inner_name_index == be16(sub, q + 4) && row.inner_class_access_flags == be16(sub, q + 6)
            })
    } else if name_is(name, "LocalVariableTable") {
        fits(sub, 0, 2) && (a matches AttributeInfo::LocalVariableTable { local_variable_table }
            && local_variable_table.len() == be16(sub, 0)
            && forall|i: int| 0 <= i < local_variable_table.len() ==> {
                let row = #[trigger] local_variable_table@[i];
                let q = 2 + 10 * i;
                row.start_pc == be16(sub, q) && row.length == be16(sub, q + 2) && row.name_index == be16(sub, q + 4)
                    && row.descriptor_index == be16(sub, q + 6) && row.index == be16(sub, q + 8)
            })
    } else if name_is(name, "LocalVariableTypeTable") {
        fits(sub, 0, 2) && (a matches AttributeInfo::LocalVariableTypeTable { local_variable_type_table }
            && local_variable_type_table.len() == be16(sub, 0)
            && forall|i: int| 0 <= i < local_variable_type_table.len() ==> {
                let row = #[trigger] local_variable_type_table@[i];
                let q = 2 + 10 * i;
                row.start_pc == be16(sub, q) && row.length == be16(sub, q + 2) && row.name_index == be16(sub, q + 4)
                    && row.signature_index == be16(sub, q + 6) && row.index == be16(sub, q + 8)
            })
    } else if name_is(name, "BootstrapMethods") {
        fits(sub, 0, 2) && (a matches AttributeInfo::BootstrapMethods { bootstrap_methods }
            && bootstrap_matches(bootstrap_methods@, bootstrap_entries(sub, 2, be16(sub, 0) as nat)))
    } else {
        a == (AttributeInfo::Unparsed { length: sub.len() as u32 })
    }
}

/// Where the attribute that starts at `pos` ends.
pub open spec fn attr_end(b: Seq<u8>, pos: int) -> int {
    pos + 6 + be32(b, pos + 2)
}

/// The bytes from `pos` hold the attribute `a`: a header, a body of the
/// length it gives, and a name that the pool gives as UTF8 text.
pub open spec fn attribute_at(b: Seq<u8>, pos: int, pool: Seq<EntryView>, a: AttributeInfo) -> bool
    decreases b.len(), 0int, 0int,
{
    &&& fits(b, pos, 6)
    &&& fits(b, pos + 6, be32(b, pos + 2))
    &&& utf8_entry(pool, be16(b, pos)) matches Some(name) && attribute_body(name, b.subrange(pos + 6, attr_end(b, pos)), pool, a)
        && body_refs_ok(name, b.subrange(pos + 6, attr_end(b, pos)), pool)
}

/// The attributes `v` are written one after another from `pos` to `end`.
pub open spec fn attributes_layout(b: Seq<u8>, pos: int, end: int, pool: Seq<EntryView>, v: Seq<AttributeInfo>) -> bool
    decreases b.len(), 1int, v.len(),
{
    if v.len() == 0 {
        pos == end
    } else {
        attribute_at(b, pos, pool, v[0]) && attributes_layout(b, attr_end(b, pos), end, pool, v.skip(1))
    }
}

proof fn lemma_attributes_append(b: Seq<u8>, pos: int, p: int, pool: Seq<EntryView>, v: Seq<AttributeInfo>, a: AttributeInfo)
    requires
        attributes_layout(b, pos, p, pool, v),
        attribute_at(b, p, pool, a),
    ensures
        attributes_layout(b, pos, attr_end(b, p), pool, v.push(a)),
    decreases v.len(),
{
    assert(attributes_layout(b, attr_end(b, p), attr_end(b, p), pool, Seq::<AttributeInfo>::empty()));
    if v.len() == 0 {
        assert(v.push(a).skip(1) =~= Seq::<AttributeInfo>::empty());
    } else {
        lemma_attributes_append(b, attr_end(b, pos), p, pool, v.skip(1), a);
        assert(v.push(a).skip(1) =~= v.skip(1).push(a));
    }
}

fn u16_at(b: &[u8], pos: usize) -> (r: Result<u16, ParseError>)
    ensures
        r == (if fits(b@, pos as int, 2) { Ok(be16(b@, pos as int) as u16) } else { Err(ParseError::UnexpectedEof) }),
{
    match read_u16(b, pos) {
        Ok((v, _)) => Ok(v),
        Err(e) => Err(e),
    }
}

/// Reads `count` attributes from `pos`.
pub fn parse_attributes(b: &[u8], pos: usize, count: u16, pool: &ConstantPool) -> (r: Result<(Vec<AttributeInfo>, usize), ParseError>)
    ensures
        r is Ok <==> attrs_ok(b@, pos as int, count as nat, pool@),
        r matches Ok((v, end)) ==> v.len() == count && pos <= end && (pos <= b.len() ==> end <= b.len())
            && attributes_layout(b@, pos as int, end as int, pool@, v@),
    decreases b.len(), 1nat,
{
    let mut v: Vec<AttributeInfo> = Vec::new();
    let mut p = pos;
    let mut i: u16 = 0;
    proof {
        assert(attributes_layout(b@, pos as int, pos as int, pool@, v@));
    }
    while i < count
        invariant
            i <= count,
            v.len() == i,
            pos <= p,
            pos <= b.len() ==> p <= b.len(),
            attributes_layout(b@, pos as int, p as int, pool@, v@),
            attrs_ok(b@, pos as int, count as nat, pool@) == attrs_ok(b@, p as int, (count - i) as nat, pool@),
        decreases count - i,
    {
        let (a, q) = match AttributeInfo::parse(b, p, pool) {
            Ok(x) => x,
            Err(e) => {
                assert(!attrs_ok(b@, p as int, (count - i) as nat, pool@));
                return Err(e);
            },
        };
        proof {
            lemma_attributes_append(b@, pos as int, p as int, pool@, v@, a);
        }
        v.push(a);
        p = q;
        i = i + 1;
    }
    Ok((v, p))
}

/// Reads the rows of a `LineNumberTable` body.
fn read_line_numbers(sub: &[u8]) -> (r: Result<Vec<AttributeLineNumber>, ParseError>)
    ensures
        r is Ok <==> rows_fit(sub@, 4),
        r matches Ok(line_number_table) ==> line_number_table.len() == be16(sub@, 0)
            && forall|i: int| 0 <= i < line_number_table.len() ==>
                (#[trigger] line_number_table@[i]).start_pc == be16(sub@, 2 + 4 * i)
                && line_number_table@[i].line_number == be16(sub@, 4 + 4 * i),
{
    let n = match u16_at(sub, 0) { Ok(x) => x, Err(e) => return Err(e) };
    let (cells, _) = match read_u16s(sub, 2, 2 * n as usize) { Ok(x) => x, Err(e) => return Err(e) };
    let mut line_number_table: Vec<AttributeLineNumber> = Vec::new();
    let mut i: usize = 0;
    while i < n as usize
        invariant
            i <= n,
            cells@ == u16s_at(sub@, 2, 2 * n),
            line_number_table.len() == i,
            forall|j: int| 0 <= j < i ==> (#[trigger] line_number_table@[j]).start_pc == be16(sub@, 2 + 4 * j)
                && line_number_table@[j].line_number == be16(sub@, 4 + 4 * j),
        decreases n - i,
    {
        line_number_table.push(AttributeLineNumber { start_pc: cells[2 * i], line_number: cells[2 * i + 1] });
        i = i + 1;
    }
    Ok(line_number_table)
}

/// Reads the rows of an `InnerClasses` body.
fn read_inner_classes(sub: &[u8]) -> (r: Result<Vec<AttributeClass>, ParseError>)
    ensures
        r is Ok <==> rows_fit(sub@, 8),
        r matches Ok(classes) ==> classes.len() == be16(sub@, 0)
            && forall|i: int| 0 <= i < classes.len() ==> {
                let row = #[trigger] classes@[i];
                let q = 2 + 8 * i;
                row.inner_class_info_index == be16(sub@, q) && row.outer_class_info_index == be16(sub@, q + 2)
                    && row.inner_name_index == be16(sub@, q + 4) && row.inner_class_access_flags == be16(sub@, q + 6)
            },
{
    let n = match u16_at(sub, 0) { Ok(x) => x, Err(e) => return Err(e) };
    let (cells, _) = match read_u16s(sub, 2, 4 * n as usize) { Ok(x) => x, Err(e) => return Err(e) };
    let mut classes: Vec<AttributeClass> = Vec::new();
    let mut i: usize = 0;
    while i < n as usize
        invariant
            i <= n,
            cells@ == u16s_at(sub@, 2, 4 * n),
            classes.len() == i,
            forall|j: int| 0 <= j < i ==> {
                let row = #[trigger] classes@[j];
                let q = 2 + 8 * j;
                row.inner_class_info_index == be16(sub@, q) && row.outer_class_info_index == be16(sub@, q + 2)
                    && row.inner_name_index == be16(sub@, q + 4) && row.inner_class_access_flags == be16(sub@, q + 6)
            },
        decreases n - i,
    {
        classes.push(AttributeClass {
            inner_class_info_index: cells[4 * i],
            outer_class_info_index: cells[4 * i + 1],
            inner_name_index: cells[4 * i + 2],
            inner_class_access_flags: cells[4 * i + 3],
        });
        i = i + 1;
    }
    Ok(classes)
}

/// Reads the rows of a `LocalVariableTable` body.
fn read_local_variables(sub: &[u8]) -> (r: Result<Vec<AttributeLocalVariable>, ParseError>)
    ensures
        r is Ok <==> rows_fit(sub@, 10),
        r matches Ok(local_variable_table) ==> local_variable_table.len() == be16(sub@, 0)
            && forall|i: int| 0 <= i < local_variable_table.len() ==> {
                let row = #[trigger] local_variable_table@[i];
                let q = 2 + 10 * i;
                row.start_pc == be16(sub@, q) && row.length == be16(sub@, q + 2) && row.name_index == be16(sub@, q + 4)
                    && row.descriptor_index == be16(sub@, q + 6) && row.index == be16(sub@, q + 8)
            },
{
    let n = match u16_at(sub, 0) { Ok(x) => x, Err(e) => return Err(e) };
    let (cells, _) = match read_u16s(sub, 2, 5 * n as usize) { Ok(x) => x, Err(e) => return Err(e) };
    let mut local_variable_table: Vec<AttributeLocalVariable> = Vec::new();
    let mut i: usize = 0;
    while i < n as usize
        invariant
            i <= n,
            cells@ == u16s_at(sub@, 2, 5 * n),
            local_variable_table.len() == i,
            forall|j: int| 0 <= j < i ==> {
                let row = #[trigger] local_variable_table@[j];
                let q = 2 + 10 * j;
                row.start_pc == be16(sub@, q) && row.length == be16(sub@, q + 2) && row.name_index == be16(sub@, q + 4)
                    && row.descriptor_index == be16(sub@, q + 6) && row.index == be16(sub@, q + 8)
            },
        decreases n - i,
    {
        local_variable_table.push(AttributeLocalVariable {
            start_pc: cells[5 * i],
            length: cells[5 * i + 1],
            name_index: cells[5 * i + 2],
            descriptor_index: cells[5 * i + 3],
            index: cells[5 * i + 4],
        });
        i = i + 1;
    }
    Ok(local_variable_table)
}

/// Reads the rows of a `LocalVariableTypeTable` body.
fn read_local_variable_types(sub: &[u8]) -> (r: Result<Vec<AttributeLocalVariableType>, ParseError>)
    ensures
        r is Ok <==> rows_fit(sub@, 10),
        r matches Ok(local_variable_type_table) ==> local_variable_type_table.len() == be16(sub@, 0)
            && forall|i: int| 0 <= i < local_variable_type_table.len() ==> {
                let row = #[trigger] local_variable_type_table@[i];
                let q = 2 + 10 * i;
                row.start_pc == be16(sub@, q) && row.length == be16(sub@, q + 2) && row.name_index == be16(sub@, q + 4)
                    && row.signature_index == be16(sub@, q + 6) && row.index == be16(sub@, q + 8)
            },
{
    let n = match u16_at(sub, 0) { Ok(x) => x, Err(e) => return Err(e) };
    let (cells, _) = match read_u16s(sub, 2, 5 * n as usize) { Ok(x) => x, Err(e) => return Err(e) };
    let mut local_variable_type_table: Vec<AttributeLocalVariableType> = Vec::new();
    let mut i: usize = 0;
    while i < n as usize
        invariant
            i <= n,
            cells@ == u16s_at(sub@, 2, 5 * n),
            local_variable_type_table.len() == i,
            forall|j: int| 0 <= j < i ==> {
                let row = #[trigger] local_variable_type_table@[j];
                let q = 2 + 10 * j;
                row.start_pc == be16(sub@, q) && row.length == be16(sub@, q + 2) && row.name_index == be16(sub@, q + 4)
                    && row.signature_index == be16(sub@, q + 6) && row.index == be16(sub@, q + 8)
            },
        decreases n - i,
    {
        local_variable_type_table.push(AttributeLocalVariableType {
            start_pc: cells[5 * i],
            length: cells[5 * i + 1],
            name_index: cells[5 * i + 2],
            signature_index: cells[5 * i + 3],
            index: cells[5 * i + 4],
        });
        i = i + 1;
    }
    Ok(local_variable_type_table)
}

/// Reads the entries of a `BootstrapMethods` body.
fn read_bootstrap_methods(sub: &[u8]) -> (r: Result<Vec<AttributeBootstrapMethod>, ParseError>)
    ensures
        r is Ok <==> fits(sub@, 0, 2) && bootstrap_ok(sub@, 2, be16(sub@, 0) as nat),
        r matches Ok(bootstrap_methods) ==> bootstrap_matches(bootstrap_methods@, bootstrap_entries(sub@, 2, be16(sub@, 0) as nat)),
{
    let n = match u16_at(sub, 0) { Ok(x) => x, Err(e) => return Err(e) };
    let mut bootstrap_methods: Vec<AttributeBootstrapMethod> = Vec::new();
    let mut q: usize = 2;
    let mut i: u16 = 0;
    let ghost mut done: Seq<(u16, Seq<u16>)> = Seq::empty();
    while i < n
        invariant
            i <= n,
            n == be16(sub@, 0),
            q <= sub.len(),
            bootstrap_methods.len() == i,
            bootstrap_ok(sub@, 2, n as nat) == bootstrap_ok(sub@, q as int, (n - i) as nat),
            bootstrap_ok(sub@, 2, n as nat) ==> bootstrap_entries(sub@, 2, n as nat)
                =~= done + bootstrap_entries(sub@, q as int, (n - i) as nat),
            bootstrap_matches(bootstrap_methods@, done),
        decreases n - i,
    {
        if sub.len() - q < 4 {
            assert(!bootstrap_ok(sub@, q as int, (n - i) as nat));
            return Err(ParseError::UnexpectedEof);
        }
        let (bootstrap_method_ref, p) = match read_u16(sub, q) { Ok(x) => x, Err(e) => return Err(e) };
        assert(p == q + 2);
        let (count, p) = match read_u16(sub, p) { Ok(x) => x, Err(e) => return Err(e) };
        assert(p == q + 4);
        let (bootstrap_arguments, p) = match read_u16s(sub, p, count as usize) {
            Ok(x) => x,
            Err(e) => {
                assert(!bootstrap_ok(sub@, q as int, (n - i) as nat));
                return Err(e);
            },
        };
        let ghost entry = (bootstrap_method_ref, bootstrap_arguments@);
        let ghost prev = bootstrap_methods@;
        bootstrap_methods.push(AttributeBootstrapMethod { bootstrap_method_ref, bootstrap_arguments });
        proof {
            let rest = bootstrap_entries(sub@, p as int, (n - i - 1) as nat);
            assert(bootstrap_entries(sub@, q as int, (n - i) as nat) == seq![entry] + rest);
            assert(done + (seq![entry] + rest) =~= (done + seq![entry]) + rest);
            done = done + seq![entry];
            assert forall|j: int| 0 <= j < bootstrap_methods.len() implies (#[trigger] bootstrap_methods@[j]).bootstrap_method_ref == done[j].0
                && bootstrap_methods@[j].bootstrap_arguments@ == done[j].1 by {
                if j < i {
                    assert(bootstrap_methods@[j] == prev[j]);
                }
            }
        }
        q = p;
        i = i + 1;
    }
    assert(done + Seq::<(u16, Seq<u16>)>::empty() =~= done);
    Ok(bootstrap_methods)
}

/// Whether the `u16` at `pos` is a valid pool index (or zero, where `zero_ok`).
fn index_at_ok(sub: &[u8], pos: usize, len: usize, zero_ok: bool) -> (r: bool)
    requires
        fits(sub@, pos as int, 2),
    ensures
        r == if zero_ok { zero_or_valid(be16(sub@, pos as int) as u16, len as int) } else { valid_index(be16(sub@, pos as int) as u16, len as int) },
{
    let v = match u16_at(sub, pos) { Ok(x) => x, Err(_) => 0 };
    (zero_ok && v == 0) || index_ok(v, len)
}

/// Checks the pool indices that a well-formed attribute body holds.
#[verifier::loop_isolation(false)]
fn body_refs_check(name: &[u8], sub: &[u8], pool: &ConstantPool) -> (r: bool)
    requires
        body_ok(name@, sub@, pool@),
    ensures
        r == body_refs_ok(name@, sub@, pool@),
{
    let len = pool.0.len();
    assert(pool@.len() == len);
    if bytes_eq(name, "ConstantValue".as_bytes()) {
        index_at_ok(sub, 0, len, false)
    } else if bytes_eq(name, "Code".as_bytes()) {
        true
    } else if bytes_eq(name, "Exceptions".as_bytes()) {
        let n = match u16_at(sub, 0) { Ok(x) => x, Err(_) => 0 };
        let mut i: usize = 0;
        while i < n as usize
            invariant
                n == be16(sub@, 0),
                fits(sub@, 2, 2 * n),
                i <= n,
                forall|j: int| 0 <= j < i ==> valid_index(#[trigger] u16s_at(sub@, 2, n as int)[j], len as int),
            decreases n - i,
        {
            if !index_at_ok(sub, 2 + 2 * i, len, false) {
                assert(!valid_index(u16s_at(sub@, 2, n as int)[i as int], len as int));
                return false;
            }
            assert(valid_index(u16s_at(sub@, 2, n as int)[i as int], len as int));
            i = i + 1;
        }
        true
    } else if bytes_eq(name, "EnclosingMethod".as_bytes()) {
        index_at_ok(sub, 0, len, false) && index_at_ok(sub, 2, len, true)
    } else if bytes_eq(name, "Synthetic".as_bytes()) || bytes_eq(name, "Deprecated".as_bytes()) {
        true
    } else if bytes_eq(name, "Signature".as_bytes()) || bytes_eq(name, "SourceFile".as_bytes()) {
        index_at_ok(sub, 0, len, false)
    } else if bytes_eq(name, "SourceDebugExtension".as_bytes()) || bytes_eq(name, "LineNumberTable".as_bytes()) {
        true
    } else if bytes_eq(name, "InnerClasses".as_bytes()) {
        let n = match u16_at(sub, 0) { Ok(x) => x, Err(_) => 0 };
        let mut i: usize = 0;
        while i < n as usize
            invariant
                n == be16(sub@, 0),
                fits(sub@, 2, 8 * n),
                i <= n,
                forall|j: int| 0 <= j < i ==> valid_index(#[trigger] be16(sub@, 2 + 8 * j) as u16, len as int)
                    && zero_or_valid(be16(sub@, 4 + 8 * j) as u16, len as int) && zero_or_valid(be16(sub@, 6 + 8 * j) as u16, len as int),
            decreases n - i,
        {
            if !(index_at_ok(sub, 2 + 8 * i, len, false) && index_at_ok(sub, 4 + 8 * i, len, true) && index_at_ok(sub, 6 + 8 * i, len, true)) {
                assert(!(valid_index(be16(sub@, 2 + 8 * i) as u16, len as int)
                    && zero_or_valid(be16(sub@, 4 + 8 * i) as u16, len as int) && zero_or_valid(be16(sub@, 6 + 8 * i) as u16, len as int)));
                return false;
            }
            i = i + 1;
        }
        true
    } else if bytes_eq(name, "LocalVariableTable".as_bytes()) || bytes_eq(name, "LocalVariableTypeTable".as_bytes()) {
        let n = match u16_at(sub, 0) { Ok(x) => x, Err(_) => 0 };
        let mut i: usize = 0;
        while i < n as usize
            invariant
                n == be16(sub@, 0),
                fits(sub@, 2, 10 * n),
                i <= n,
                forall|j: int| 0 <= j < i ==> valid_index(#[trigger] be16(sub@, 6 + 10 * j) as u16, len as int)
                    && valid_index(be16(sub@, 8 + 10 * j) as u16, len as int),
            decreases n - i,
        {
            if !(index_at_ok(sub, 6 + 10 * i, len, false) && index_at_ok(sub, 8 + 10 * i, len, false)) {
                assert(!(valid_index(be16(sub@, 6 + 10 * i) as u16, len as int) && valid_index(be16(sub@, 8 + 10 * i) as u16, len as int)));
                return false;
            }
            i = i + 1;
        }
        true
    } else if bytes_eq(name, "BootstrapMethods".as_bytes()) {
        let methods = match read_bootstrap_methods(sub) { Ok(x) => x, Err(_) => return true };
        let ghost e = bootstrap_entries(sub@, 2, be16(sub@, 0) as nat);
        let mut i: usize = 0;
        while i < methods.len()
            invariant
                bootstrap_matches(methods@, e),
                i <= methods.len(),
                forall|k: int| 0 <= k < i ==> valid_index((#[trigger] e[k]).0, len as int)
                    && forall|j: int| 0 <= j < e[k].1.len() ==> valid_index(#[trigger] e[k].1[j], len as int),
            decreases methods.len() - i,
        {
            let m = &methods[i];
            if !index_ok(m.bootstrap_method_ref, len) {
                assert(!valid_index(e[i as int].0, len as int));
                return false;
            }
            let mut j: usize = 0;
            while j < m.bootstrap_arguments.len()
                invariant
                    j <= m.bootstrap_arguments.len(),
                    forall|q: int| 0 <= q < j ==> valid_index(#[trigger] m.bootstrap_arguments@[q], len as int),
                decreases m.bootstrap_arguments.len() - j,
            {
                if !index_ok(m.bootstrap_arguments[j], len) {
                    assert(!valid_index(e[i as int].1[j as int], len as int));
                    return false;
                }
                j = j + 1;
            }
            assert(e[i as int].1 == m.bootstrap_arguments@);
            i = i + 1;
        }
        true
    } else {
        true
    }
}

impl AttributeInfo {
    /// Reads the attribute at `pos`: its name index, its length, and a body
    /// of exactly that many bytes, decoded by the name that the pool gives.
    pub fn parse(b: &[u8], pos: usize, pool: &ConstantPool) -> (r: Result<(AttributeInfo, usize), ParseError>)
        ensures
            !fits(b@, pos as int, 6) ==> r == Err::<(AttributeInfo, usize), ParseError>(ParseError::UnexpectedEof),
            fits(b@, pos as int, 6) && fits(b@, pos + 6, be32(b@, pos + 2)) && utf8_entry(pool@, be16(b@, pos as int)) is None
                ==> r == Err::<(AttributeInfo, usize), ParseError>(ParseError::InvalidPoolIndex),
            r is Ok <==> attr_ok(b@, pos as int, pool@),
            r matches Ok((a, end)) ==> attribute_at(b@, pos as int, pool@, a) && end == attr_end(b@, pos as int) && end <= b.len(),
        decreases b.len(), 0nat,
    {
        if pos > b.len() || b.len() - pos < 6 {
            return Err(ParseError::UnexpectedEof);
        }
        let (name_index, p) = match read_u16(b, pos) { Ok(x) => x, Err(e) => return Err(e) };
        let (length, p) = match read_u32(b, p) { Ok(x) => x, Err(e) => return Err(e) };
        assert(p == pos + 6);
        if b.len() - p < length as usize {
            return Err(ParseError::UnexpectedEof);
        }
        let end = p + length as usize;
        let sub = slice_subrange(b, p, end);
        let text = match pool.get(name_index) {
            Some(ConstantInfo::UTF8 { text }) => text,
            _ => return Err(ParseError::InvalidPoolIndex),
        };
        let name = text.as_str().as_bytes();
        let info = match AttributeInfo::parse_body(name, sub, length, pool) { Ok(x) => x, Err(e) => return Err(e) };
        if !body_refs_check(name, sub, pool) {
            return Err(ParseError::InvalidPoolIndex);
        }
        Ok((info, end))
    }

    /// Decodes the body `sub` of an attribute named `name`.
    #[verifier::rlimit(40)]
    fn parse_body(name: &[u8], sub: &[u8], length: u32, pool: &ConstantPool) -> (r: Result<AttributeInfo, ParseError>)
        requires
            sub.len() == length,
        ensures
            r is Ok <==> body_ok(name@, sub@, pool@),
            r matches Ok(a) ==> attribute_body(name@, sub@, pool@, a),
        decreases sub.len(), 3nat,
    {
        let info = if bytes_eq(name, "ConstantValue".as_bytes()) {
            AttributeInfo::ConstantValue { constant_index: match u16_at(sub, 0) { Ok(x) => x, Err(e) => return Err(e) } }
        } else if bytes_eq(name, "Code".as_bytes()) {
            let (code, _) = match Code::parse(sub, 0, pool) {
                Ok(x) => x,
                Err(e) => {
                    assert(!code_ok(sub@, 0, pool@));
                    assert(!body_ok(name@, sub@, pool@));
                    return Err(e);
                },
            };
            let a = AttributeInfo::CodeAttribute { code };
            proof {
                assert(code_body(sub@, 0, pool@, a->code));
                assert(name_is(name@, "Code"));
                assert(!name_is(name@, "ConstantValue"));
                assert(attribute_body(name@, sub@, pool@, a));
            }
            a
        } else if bytes_eq(name, "Exceptions".as_bytes()) {
            let n = match u16_at(sub, 0) { Ok(x) => x, Err(e) => return Err(e) };
            let (exception_index_table, _) = match read_u16s(sub, 2, n as usize) { Ok(x) => x, Err(e) => return Err(e) };
            AttributeInfo::Exceptions { exception_index_table }
        } else if bytes_eq(name, "EnclosingMethod".as_bytes()) {
            let class_index = match u16_at(sub, 0) { Ok(x) => x, Err(e) => return Err(e) };
            let method_index = match u16_at(sub, 2) { Ok(x) => x, Err(e) => return Err(e) };
            AttributeInfo::EnclosingMethod { class_index, method_index }
        } else if bytes_eq(name, "Synthetic".as_bytes()) {
            AttributeInfo::Synthetic
        } else if bytes_eq(name, "Deprecated".as_bytes()) {
            AttributeInfo::Deprecated
        } else if bytes_eq(name, "Signature".as_bytes()) {
            AttributeInfo::Signature { signature_index: match u16_at(sub, 0) { Ok(x) => x, Err(e) => return Err(e) } }
        } else if bytes_eq(name, "SourceFile".as_bytes()) {
            AttributeInfo::SourceFile { source_file_index: match u16_at(sub, 0) { Ok(x) => x, Err(e) => return Err(e) } }
        } else if bytes_eq(name, "SourceDebugExtension".as_bytes()) {
            AttributeInfo::SourceDebugExtension { debug_extension: vstd::slice::slice_to_vec(sub) }
        } else if bytes_eq(name, "LineNumberTable".as_bytes()) {
            AttributeInfo::LineNumberTable { line_number_table: match read_line_numbers(sub) { Ok(x) => x, Err(e) => return Err(e) } }
        } else if bytes_eq(name, "InnerClasses".as_bytes()) {
            AttributeInfo::InnerClasses { classes: match read_inner_classes(sub) { Ok(x) => x, Err(e) => return Err(e) } }
        } else if bytes_eq(name, "LocalVariableTable".as_bytes()) {
            AttributeInfo::LocalVariableTable { local_variable_table: match read_local_variables(sub) { Ok(x) => x, Err(e) => return Err(e) } }
        } else if bytes_eq(name, "LocalVariableTypeTable".as_bytes()) {
            AttributeInfo::LocalVariableTypeTable { local_variable_type_table: match read_local_variable_types(sub) { Ok(x) => x, Err(e) => return Err(e) } }
        } else if bytes_eq(name, "BootstrapMethods".as_bytes()) {
            AttributeInfo::BootstrapMethods { bootstrap_methods: match read_bootstrap_methods(sub) { Ok(x) => x, Err(e) => return Err(e) } }
        } else {
            AttributeInfo::Unparsed { length }
        };
        Ok(info)
    }
}

/// Reads the exception table at `t`: a row count, then rows of four `u16`.
fn read_exception_table(b: &[u8], t: usize) -> (r: Result<(Vec<AttributeException>, usize), ParseError>)
    ensures
        r is Ok <==> fits(b@, t as int, 2) && fits(b@, t + 2, 8 * be16(b@, t as int)),
        r matches Ok((rows, end)) ==> {
            &&& rows.len() == be16(b@, t as int)
            &&& end == t + 2 + 8 * rows.len()
            &&& forall|i: int| 0 <= i < rows.len() ==> {
                let row = #[trigger] rows@[i];
                let q = t + 2 + 8 * i;
                row.start_pc == be16(b@, q) && row.end_pc == be16(b@, q + 2) && row.handler_pc == be16(b@, q + 4)
                    && row.catch_type == be16(b@, q + 6)
            }
        },
{
    let count = match u16_at(b, t) { Ok(x) => x, Err(e) => return Err(e) };
    assert(t + 2 <= b.len());
    let mut rows: Vec<AttributeException> = Vec::new();
    let mut q = t + 2;
    let mut i: u16 = 0;
    while i < count
        invariant
            i <= count,
            count == be16(b@, t as int),
            t + 2 <= b.len(),
            q == t + 2 + 8 * i,
            q <= b.len(),
            rows.len() == i,
            forall|j: int| 0 <= j < i ==> {
                let row = #[trigger] rows@[j];
                let s = t + 2 + 8 * j;
                row.start_pc == be16(b@, s) && row.end_pc == be16(b@, s + 2) && row.handler_pc == be16(b@, s + 4)
                    && row.catch_type == be16(b@, s + 6)
            },
        decreases count - i,
    {
        let (row, next) = match AttributeException::parse(b, q) {
            Ok(x) => x,
            Err(e) => {
                assert(!fits(b@, t + 2, 8 * count));
                return Err(e);
            },
        };
        rows.push(row);
        q = next;
        i = i + 1;
    }
    Ok((rows, q))
}

fn inst_refs_check(inst: &Instruction, len: usize) -> (r: bool)
    ensures
        r == inst_refs_ok(*inst, len as int),
{
    match inst {
        Instruction::ConstantPool { pool } => index_ok(*pool as u16, len),
        Instruction::ConstantPoolWide { pool } => index_ok(*pool, len),
        Instruction::Cast { pool_pos } | Instruction::Instanceof { pool_pos } | Instruction::New { pool_pos }
        | Instruction::GetField { pool_pos } | Instruction::GetStaticField { pool_pos } | Instruction::PutField { pool_pos }
        | Instruction::PutStaticField { pool_pos } | Instruction::InvokeMethod { pool_pos } => index_ok(*pool_pos, len),
        _ => true,
    }
}

/// Whether every instruction operand of `ops` that names a pool entry is a
/// valid index.
fn ops_refs_check(ops: &Vec<Op>, len: usize) -> (r: bool)
    ensures
        r == forall|k: int| 0 <= k < ops.len() ==> inst_refs_ok(#[trigger] ops@[k].inst, len as int),
{
    let mut k: usize = 0;
    while k < ops.len()
        invariant
            k <= ops.len(),
            forall|j: int| 0 <= j < k ==> inst_refs_ok(#[trigger] ops@[j].inst, len as int),
        decreases ops.len() - k,
    {
        if !inst_refs_check(&ops[k].inst, len) {
            return false;
        }
        k = k + 1;
    }
    true
}

/// Whether every catch type of the exception table is zero or a valid index.
fn catch_types_check(rows: &Vec<AttributeException>, len: usize) -> (r: bool)
    ensures
        r == forall|i: int| 0 <= i < rows.len() ==> zero_or_valid(#[trigger] rows@[i].catch_type, len as int),
{
    let mut i: usize = 0;
    while i < rows.len()
        invariant
            i <= rows.len(),
            forall|j: int| 0 <= j < i ==> zero_or_valid(#[trigger] rows@[j].catch_type, len as int),
        decreases rows.len() - i,
    {
        if !(rows[i].catch_type == 0 || index_ok(rows[i].catch_type, len)) {
            return false;
        }
        i = i + 1;
    }
    true
}

proof fn lemma_resolved_refs(o: Op, w: Seq<(int, Op)>, k: int, len: int)
    requires
        resolved_from(o, w, k),
    ensures
        inst_refs_ok(o.inst, len) == inst_refs_ok(w[k].1.inst, len),
{
}

impl Code {
    /// Reads a `Code` attribute body at `pos` and lifts its code.
    pub fn parse(b: &[u8], pos: usize, pool: &ConstantPool) -> (r: Result<(Code, usize), ParseError>)
        ensures
            r is Ok <==> code_ok(b@, pos as int, pool@),
            r matches Ok((c, end)) ==> code_body(b@, pos as int, pool@, c) && end == code_end(b@, pos as int) && end <= b.len(),
            fits(b@, pos as int, 8) && fits(b@, pos + 8, be32(b@, pos + 4)) && be32(b@, pos + 4) < 4294967295
                ==> code_error(b@.subrange(pos + 8, pos + 8 + be32(b@, pos + 4)), r),
            !fits(b@, pos as int, 8) ==> r == Err::<(Code, usize), ParseError>(ParseError::UnexpectedEof),
            fits(b@, pos as int, 8) && !(fits(b@, pos + 8, be32(b@, pos + 4)) && be32(b@, pos + 4) < 4294967295)
                ==> r == Err::<(Code, usize), ParseError>(ParseError::TruncatedCode),
        decreases b.len(), 2nat,
    {
        if pos > b.len() || b.len() - pos < 8 {
            return Err(ParseError::UnexpectedEof);
        }
        let (max_stack, p) = match read_u16(b, pos) { Ok(x) => x, Err(e) => return Err(e) };
        let (max_locals, p) = match read_u16(b, p) { Ok(x) => x, Err(e) => return Err(e) };
        let (code_length, p) = match read_u32(b, p) { Ok(x) => x, Err(e) => return Err(e) };
        assert(p == pos + 8);
        if b.len() - p < code_length as usize || code_length == u32::MAX {
            return Err(ParseError::TruncatedCode);
        }
        let t = p + code_length as usize;
        let code_bytes = slice_subrange(b, p, t);
        let (code, code_chunks) = match lift_code(code_bytes) { Ok(x) => x, Err(e) => return Err(e) };
        let (exception_table, q) = match read_exception_table(b, t) { Ok(x) => x, Err(e) => return Err(e) };
        let ghost w = code_walk(code_bytes@, 0)->Ok_0;
        proof {
            assert forall|k: int| 0 <= k < w.len() implies inst_refs_ok(#[trigger] w[k].1.inst, pool@.len() as int)
                == inst_refs_ok(code@[k].inst, pool@.len() as int) by {
                lemma_resolved_refs(code@[k], w, k, pool@.len() as int);
            }
            assert(pool@.len() == pool.0.len());
        }
        if !ops_refs_check(&code, pool.0.len()) {
            proof {
                let k = choose|k: int| 0 <= k < code.len() && !inst_refs_ok(#[trigger] code@[k].inst, pool@.len() as int);
                assert(!inst_refs_ok(w[k].1.inst, pool@.len() as int));
            }
            return Err(ParseError::InvalidPoolIndex);
        }
        if !catch_types_check(&exception_table, pool.0.len()) {
            proof {
                let i = choose|i: int| 0 <= i < exception_table.len() && !zero_or_valid(#[trigger] exception_table@[i].catch_type, pool@.len() as int);
                assert(!zero_or_valid(be16(b@, t + 8 + 8 * i) as u16, pool@.len() as int));
            }
            return Err(ParseError::InvalidPoolIndex);
        }
        let n_attrs = match u16_at(b, q) { Ok(x) => x, Err(e) => return Err(e) };
        let (attribute_info, end) = match parse_attributes(b, q + 2, n_attrs, pool) { Ok(x) => x, Err(e) => return Err(e) };
        proof {
            lemma_layout_end(b@, q + 2, end as int, pool@, attribute_info@);
            let len = pool@.len() as int;
            assert forall|k: int| 0 <= k < w.len() implies inst_refs_ok(#[trigger] w[k].1.inst, len) by {
                assert(inst_refs_ok(code@[k].inst, len));
            }
            assert forall|i: int| 0 <= i < be16(b@, t as int) implies zero_or_valid(#[trigger] be16(b@, t + 8 + 8 * i) as u16, len) by {
                assert(zero_or_valid(exception_table@[i].catch_type, len));
            }
            assert(code_bytes@ == b@.subrange(pos + 8, t as int));
            assert(code_refs_ok(b@, code_bytes@, t as int, pool@));
        }
        Ok((Code { max_stack, max_locals, code, code_chunks, exception_table, attribute_info }, end))
    }
}

/// `i` is a one-based index into a pool of `len` entries.
pub open spec fn valid_index(i: u16, len: int) -> bool {
    1 <= i <= len
}

/// Every pool index that the entry `c` holds is valid in a pool of `len`
/// entries.
pub open spec fn entry_refs_ok(c: EntryView, len: int) -> bool {
    match c {
        EntryView::Class { name_index } => valid_index(name_index, len),
        EntryView::Field { class_index, name_and_type_index } => valid_index(class_index, len) && valid_index(name_and_type_index, len),
        EntryView::Method { class_index, name_and_type_index } => valid_index(class_index, len) && valid_index(name_and_type_index, len),
        EntryView::Interface { class_index, name_and_type_index } => valid_index(class_index, len) && valid_index(name_and_type_index, len),
        EntryView::String { string_index } => valid_index(string_index, len),
        EntryView::NameAndType { name_index, descriptor_index } => valid_index(name_index, len) && valid_index(descriptor_index, len),
        EntryView::MethodHandle { reference_index, .. } => valid_index(reference_index, len),
        EntryView::MethodType { descriptor_index } => valid_index(descriptor_index, len),
        EntryView::InvokeDynamic { name_and_type_index, .. } => valid_index(name_and_type_index, len),
        _ => true,
    }
}

/// Every pool index held by an entry of the pool is valid.
pub open spec fn pool_refs_ok(pool: Seq<EntryView>) -> bool {
    forall|i: int| 0 <= i < pool.len() ==> entry_refs_ok(#[trigger] pool[i], pool.len() as int)
}

fn index_ok(i: u16, len: usize) -> (r: bool)
    ensures
        r == valid_index(i, len as int),
{
    i >= 1 && (i as usize) <= len
}

fn entry_refs_ok_exec(c: &ConstantInfo, len: usize) -> (r: bool)
    ensures
        r == entry_refs_ok(entry_view(*c), len as int),
{
    match c {
        ConstantInfo::Class { name_index } => index_ok(*name_index, len),
        ConstantInfo::Field { class_index, name_and_type_index } => index_ok(*class_index, len) && index_ok(*name_and_type_index, len),
        ConstantInfo::Method { class_index, name_and_type_index } => index_ok(*class_index, len) && index_ok(*name_and_type_index, len),
        ConstantInfo::Interface { class_index, name_and_type_index } => index_ok(*class_index, len) && index_ok(*name_and_type_index, len),
        ConstantInfo::String { string_index } => index_ok(*string_index, len),
        ConstantInfo::NameAndType { name_index, descriptor_index } => index_ok(*name_index, len) && index_ok(*descriptor_index, len),
        ConstantInfo::MethodHandle { reference_index, .. } => index_ok(*reference_index, len),
        ConstantInfo::MethodType { descriptor_index } => index_ok(*descriptor_index, len),
        ConstantInfo::InvokeDynamic { name_and_type_index, .. } => index_ok(*name_and_type_index, len),
        _ => true,
    }
}

impl ConstantPool {
    /// Whether every pool index held by an entry of the pool is valid.
    pub fn refs_ok(&self) -> (r: bool)
        ensures
            r == pool_refs_ok(self@),
    {
        let len = self.0.len();
        let mut i: usize = 0;
        while i < len
            invariant
                len == self.0.len(),
                i <= len,
                forall|j: int| 0 <= j < i ==> entry_refs_ok(#[trigger] self@[j], len as int),
            decreases len - i,
        {
            assert(self@[i as int] == entry_view(self.0@[i as int]));
            if !entry_refs_ok_exec(&self.0[i], len) {
                return false;
            }
            i = i + 1;
        }
        true
    }
}

/// The bytes from `pos` to `end` hold a field or method with flags `bits`,
/// name and descriptor indices, and attributes `attrs`.
pub open spec fn member_at(b: Seq<u8>, pos: int, end: int, pool: Seq<EntryView>, bits: u16, name_index: u16, descriptor_index: u16, attrs: Seq<AttributeInfo>) -> bool {
    &&& fits(b, pos, 8)
    &&& bits == be16(b, pos)
    &&& name_index == be16(b, pos + 2) && valid_index(name_index, pool.len() as int)
    &&& descriptor_index == be16(b, pos + 4) && valid_index(descriptor_index, pool.len() as int)
    &&& attrs.len() == be16(b, pos + 6)
    &&& attributes_layout(b, pos + 8, end, pool, attrs)
}

/// The fields `v` are written one after another from `pos` to `end`, each
/// ending where `ends` says.
pub open spec fn fields_layout(b: Seq<u8>, pos: int, end: int, pool: Seq<EntryView>, v: Seq<FieldInfo>, ends: Seq<int>) -> bool {
    &&& ends.len() == v.len()
    &&& forall|i: int| 0 <= i < v.len() ==> member_at(b, if i == 0 { pos } else { ends[i - 1] }, ends[i], pool,
        (#[trigger] v[i]).access_flags.bits, v[i].name_index, v[i].descriptor_index, v[i].attribute_info@)
    &&& end == if v.len() == 0 { pos } else { ends[v.len() - 1] }
}

/// The methods `v` are written one after another from `pos` to `end`, each
/// ending where `ends` says.
pub open spec fn methods_layout(b: Seq<u8>, pos: int, end: int, pool: Seq<EntryView>, v: Seq<MethodInfo>, ends: Seq<int>) -> bool {
    &&& ends.len() == v.len()
    &&& forall|i: int| 0 <= i < v.len() ==> member_at(b, if i == 0 { pos } else { ends[i - 1] }, ends[i], pool,
        (#[trigger] v[i]).access_flags.bits, v[i].name_index, v[i].descriptor_index, v[i].attribute_info@)
    &&& end == if v.len() == 0 { pos } else { ends[v.len() - 1] }
}

/// After the pool, which ends at `p`: the class flags, this and super
/// class, the interfaces, then the fields, methods and attributes of `c`,
/// each list behind its count.
pub open spec fn members_read(b: Seq<u8>, p: int, c: ClassInfo) -> bool {
    let pool = c.constant_pool@;
    let q = p + 8 + 2 * c.interfaces.len();
    &&& fits(b, p, 8)
    &&& c.access_flags.bits == be16(b, p)
    &&& c.this_class == be16(b, p + 2)
    &&& c.super_class == be16(b, p + 4)
    &&& c.interfaces.len() == be16(b, p + 6)
    &&& c.interfaces@ == u16s_at(b, p + 8, c.interfaces.len() as int)
    &&& fits(b, q, 2) && c.fields.len() == be16(b, q)
    &&& exists|fe: Seq<int>, r: int| #![trigger fields_layout(b, q + 2, r, pool, c.fields@, fe)]
        fields_layout(b, q + 2, r, pool, c.fields@, fe)
        && fits(b, r, 2) && c.methods.len() == be16(b, r)
        && exists|me: Seq<int>, t: int| #![trigger methods_layout(b, r + 2, t, pool, c.methods@, me)]
            methods_layout(b, r + 2, t, pool, c.methods@, me)
            && fits(b, t, 2) && c.attributes.len() == be16(b, t)
            && exists|u: int| #[trigger] attributes_layout(b, t + 2, u, pool, c.attributes@)
}

/// The field or method at `pos` can be decoded, with access flags that
/// keep within `mask`.
pub open spec fn member_ok(b: Seq<u8>, pos: int, pool: Seq<EntryView>, mask: u16) -> bool {
    &&& fits(b, pos, 8)
    &&& be16(b, pos) as u16 & !mask == 0
    &&& valid_index(be16(b, pos + 2) as u16, pool.len() as int)
    &&& valid_index(be16(b, pos + 4) as u16, pool.len() as int)
    &&& attrs_ok(b, pos + 8, be16(b, pos + 6) as nat, pool)
}

/// Where the field or method at `pos` ends.
pub open spec fn member_end(b: Seq<u8>, pos: int) -> int {
    attrs_end(b, pos + 8, be16(b, pos + 6) as nat)
}

/// `n` fields or methods from `pos` can be decoded.
pub open spec fn members_ok(b: Seq<u8>, pos: int, n: nat, pool: Seq<EntryView>, mask: u16) -> bool
    decreases n,
{
    if n == 0 {
        true
    } else {
        member_ok(b, pos, pool, mask) && members_ok(b, member_end(b, pos), (n - 1) as nat, pool, mask)
    }
}

/// Where `n` fields or methods that start at `pos` end.
pub open spec fn members_end(b: Seq<u8>, pos: int, n: nat) -> int
    decreases n,
{
    if n == 0 { pos } else { members_end(b, member_end(b, pos), (n - 1) as nat) }
}

/// After a pool that ends at `p`, the rest of the class file can be
/// decoded: flags, this and super class, interfaces, fields, methods and
/// attributes, with every pool index valid.
pub open spec fn rest_ok(b: Seq<u8>, p: int, pool: Seq<EntryView>) -> bool {
    let len = pool.len() as int;
    let n_if = be16(b, p + 6);
    let q = p + 8 + 2 * n_if;
    let f_end = members_end(b, q + 2, be16(b, q) as nat);
    let m_end = members_end(b, f_end + 2, be16(b, f_end) as nat);
    &&& fits(b, p, 8)
    &&& be16(b, p) as u16 & !CLASS_FLAG_MASK == 0
    &&& (be16(b, p + 2) == 0 || valid_index(be16(b, p + 2) as u16, len))
    &&& (be16(b, p + 4) == 0 || valid_index(be16(b, p + 4) as u16, len))
    &&& fits(b, p + 8, 2 * n_if)
    &&& (forall|i: int| 0 <= i < n_if ==> valid_index(#[trigger] u16s_at(b, p + 8, n_if)[i], len))
    &&& fits(b, q, 2)
    &&& members_ok(b, q + 2, be16(b, q) as nat, pool, FIELD_FLAG_MASK)
    &&& fits(b, f_end, 2)
    &&& members_ok(b, f_end + 2, be16(b, f_end) as nat, pool, METHOD_FLAG_MASK)
    &&& fits(b, m_end, 2)
    &&& attrs_ok(b, m_end + 2, be16(b, m_end) as nat, pool)
}

/// The number of slots that the pool count of the class file `b` announces.
pub open spec fn pool_slots(b: Seq<u8>) -> int {
    if be16(b, 8) == 0 { 0 } else { be16(b, 8) - 1 }
}

/// The pool of the class file `b`, all the slots that its count announces,
/// and where it ends; or the error of the first constant that cannot be read.
pub open spec fn class_pool(b: Seq<u8>) -> Result<(Seq<EntryView>, int), ParseError> {
    pool_view_at(b, 10, pool_slots(b))
}

/// The class file `b` is malformed: too short, a wrong magic number, a
/// constant that cannot be read, or a pool after which the rest cannot be
/// decoded or holds an invalid index.
pub open spec fn class_defect(b: Seq<u8>) -> bool {
    ||| b.len() < 10
    ||| !magic_ok(b)
    ||| class_pool(b) is Err
    ||| class_pool(b) matches Ok((v, p)) && (!pool_refs_ok(v) || !rest_ok(b, p, v))
}

/// The error that `ClassInfo::parse` owes on the class file `b`, for each
/// way it can be malformed up to and including its interfaces; `true` where
/// none of these applies.
pub open spec fn class_error<T>(b: Seq<u8>, r: Result<T, ParseError>) -> bool {
    match class_pool(b) {
        Err(e) => r == Err::<T, ParseError>(e),
        Ok((v, p)) => {
            let len = v.len() as int;
            let n_if = be16(b, p + 6);
            if !pool_refs_ok(v) {
                r == Err::<T, ParseError>(ParseError::InvalidPoolIndex)
            } else if !fits(b, p, 2) {
                r == Err::<T, ParseError>(ParseError::UnexpectedEof)
            } else if be16(b, p) as u16 & !CLASS_FLAG_MASK != 0 {
                r == Err::<T, ParseError>(ParseError::UnknownAccessFlags)
            } else if !fits(b, p, 8) {
                r == Err::<T, ParseError>(ParseError::UnexpectedEof)
            } else if !(be16(b, p + 2) == 0 || valid_index(be16(b, p + 2) as u16, len))
                || !(be16(b, p + 4) == 0 || valid_index(be16(b, p + 4) as u16, len)) {
                r == Err::<T, ParseError>(ParseError::InvalidPoolIndex)
            } else if !fits(b, p + 8, 2 * n_if) {
                r == Err::<T, ParseError>(ParseError::UnexpectedEof)
            } else if exists|i: int| 0 <= i < n_if && !valid_index(#[trigger] u16s_at(b, p + 8, n_if)[i], len) {
                r == Err::<T, ParseError>(ParseError::InvalidPoolIndex)
            } else {
                true
            }
        },
    }
}

proof fn lemma_header_no_error<T>(b: Seq<u8>, minor: u16, major: u16, pool: Seq<ConstantInfo>, pool_end: int, this_class: u16, super_class: u16, interfaces: Seq<u16>, r: Result<T, ParseError>)
    requires
        header_ok(b, minor, major, pool, pool_end, this_class, super_class, interfaces),
    ensures
        class_error(b, r),
{
    let v = pool_view(pool);
    let n_if = be16(b, pool_end + 6);
    assert forall|i: int| 0 <= i < n_if implies valid_index(#[trigger] u16s_at(b, pool_end + 8, n_if)[i], v.len() as int) by {
        assert(interfaces[i] == u16s_at(b, pool_end + 8, n_if)[i]);
    }
}

proof fn lemma_defect_from_rest(b: Seq<u8>, p: int, pool: Seq<EntryView>)
    requires
        class_pool(b) == Ok::<(Seq<EntryView>, int), ParseError>((pool, p)),
        !rest_ok(b, p, pool),
    ensures
        class_defect(b),
{
}

proof fn lemma_member_end(b: Seq<u8>, pos: int, end: int, pool: Seq<EntryView>, bits: u16, name_index: u16, descriptor_index: u16, attrs: Seq<AttributeInfo>)
    requires
        member_at(b, pos, end, pool, bits, name_index, descriptor_index, attrs),
    ensures
        end == member_end(b, pos),
{
    lemma_layout_end(b, pos + 8, end, pool, attrs);
}

impl FieldInfo {
    /// Reads a field at `pos`: flags, name and descriptor indices, attributes.
    pub fn parse(b: &[u8], pos: usize, pool: &ConstantPool) -> (r: Result<(FieldInfo, usize), ParseError>)
        ensures
            r matches Ok((f, end)) ==> {
                &&& end <= b.len()
                &&& f.access_flags.bits & !FIELD_FLAG_MASK == 0
                &&& member_at(b@, pos as int, end as int, pool@, f.access_flags.bits, f.name_index, f.descriptor_index, f.attribute_info@)
            },
            r is Ok <==> member_ok(b@, pos as int, pool@, FIELD_FLAG_MASK),
            fits(b@, pos as int, 2) && be16(b@, pos as int) as u16 & !FIELD_FLAG_MASK != 0
                ==> r == Err::<(FieldInfo, usize), ParseError>(ParseError::UnknownAccessFlags),
            fits(b@, pos as int, 8) && be16(b@, pos as int) as u16 & !FIELD_FLAG_MASK == 0
                && !(valid_index(be16(b@, pos + 2) as u16, pool.0.len() as int) && valid_index(be16(b@, pos + 4) as u16, pool.0.len() as int))
                ==> r == Err::<(FieldInfo, usize), ParseError>(ParseError::InvalidPoolIndex),
    {
        let (bits, p) = match read_u16(b, pos) { Ok(x) => x, Err(e) => return Err(e) };
        let access_flags = match FieldAccessFlags::from_bits(bits) { Some(f) => f, None => return Err(ParseError::UnknownAccessFlags) };
        if b.len() - p < 6 {
            return Err(ParseError::UnexpectedEof);
        }
        let (name_index, p) = match read_u16(b, p) { Ok(x) => x, Err(e) => return Err(e) };
        let (descriptor_index, p) = match read_u16(b, p) { Ok(x) => x, Err(e) => return Err(e) };
        let (count, p) = match read_u16(b, p) { Ok(x) => x, Err(e) => return Err(e) };
        if !index_ok(name_index, pool.0.len()) || !index_ok(descriptor_index, pool.0.len()) {
            return Err(ParseError::InvalidPoolIndex);
        }
        let (attribute_info, end) = match parse_attributes(b, p, count, pool) { Ok(x) => x, Err(e) => return Err(e) };
        Ok((FieldInfo { access_flags, name_index, descriptor_index, attribute_info }, end))
    }
}

impl MethodInfo {
    /// Reads a method at `pos`: flags, name and descriptor indices, attributes.
    pub fn parse(b: &[u8], pos: usize, pool: &ConstantPool) -> (r: Result<(MethodInfo, usize), ParseError>)
        ensures
            r matches Ok((m, end)) ==> {
                &&& end <= b.len()
                &&& m.access_flags.bits & !METHOD_FLAG_MASK == 0
                &&& member_at(b@, pos as int, end as int, pool@, m.access_flags.bits, m.name_index, m.descriptor_index, m.attribute_info@)
            },
            r is Ok <==> member_ok(b@, pos as int, pool@, METHOD_FLAG_MASK),
            fits(b@, pos as int, 2) && be16(b@, pos as int) as u16 & !METHOD_FLAG_MASK != 0
                ==> r == Err::<(MethodInfo, usize), ParseError>(ParseError::UnknownAccessFlags),
            fits(b@, pos as int, 8) && be16(b@, pos as int) as u16 & !METHOD_FLAG_MASK == 0
                && !(valid_index(be16(b@, pos + 2) as u16, pool.0.len() as int) && valid_index(be16(b@, pos + 4) as u16, pool.0.len() as int))
                ==> r == Err::<(MethodInfo, usize), ParseError>(ParseError::InvalidPoolIndex),
    {
        let (bits, p) = match read_u16(b, pos) { Ok(x) => x, Err(e) => return Err(e) };
        let access_flags = match MethodAccessFlags::from_bits(bits) { Some(f) => f, None => return Err(ParseError::UnknownAccessFlags) };
        if b.len() - p < 6 {
            return Err(ParseError::UnexpectedEof);
        }
        let (name_index, p) = match read_u16(b, p) { Ok(x) => x, Err(e) => return Err(e) };
        let (descriptor_index, p) = match read_u16(b, p) { Ok(x) => x, Err(e) => return Err(e) };
        let (count, p) = match read_u16(b, p) { Ok(x) => x, Err(e) => return Err(e) };
        if !index_ok(name_index, pool.0.len()) || !index_ok(descriptor_index, pool.0.len()) {
            return Err(ParseError::InvalidPoolIndex);
        }
        let (attribute_info, end) = match parse_attributes(b, p, count, pool) { Ok(x) => x, Err(e) => return Err(e) };
        Ok((MethodInfo { access_flags, name_index, descriptor_index, attribute_info }, end))
    }
}

/// Every pool index that the class holds outside its attributes is valid:
/// those of the pool's own entries, of the interfaces, and the name and
/// descriptor indices of its fields and methods. The indices inside
/// attributes are covered where each attribute is read (`attribute_at`
/// asks `body_refs_ok`, and `code_body` asks `code_refs_ok` of instruction
/// operands and catch types), so a parsed class holds them through
/// `class_read`.
pub open spec fn class_refs_ok(c: ClassInfo) -> bool {
    let len = c.constant_pool.0.len() as int;
    &&& pool_refs_ok(c.constant_pool@)
    &&& forall|i: int| 0 <= i < c.interfaces.len() ==> valid_index(#[trigger] c.interfaces@[i], len)
    &&& forall|i: int| 0 <= i < c.fields.len() ==> valid_index((#[trigger] c.fields@[i]).name_index, len)
        && valid_index(c.fields@[i].descriptor_index, len)
    &&& forall|i: int| 0 <= i < c.methods.len() ==> valid_index((#[trigger] c.methods@[i]).name_index, len)
        && valid_index(c.methods@[i].descriptor_index, len)
}

/// The access flags of the class and of each of its members hold only
/// bits that the format defines for them.
pub open spec fn class_flags_ok(c: ClassInfo) -> bool {
    &&& c.access_flags.bits & !CLASS_FLAG_MASK == 0
    &&& forall|i: int| 0 <= i < c.fields.len() ==> (#[trigger] c.fields@[i]).access_flags.bits & !FIELD_FLAG_MASK == 0
    &&& forall|i: int| 0 <= i < c.methods.len() ==> (#[trigger] c.methods@[i]).access_flags.bits & !METHOD_FLAG_MASK == 0
}

/// What the class parse has established before the member lists.
pub open spec fn header_ok(b: Seq<u8>, minor: u16, major: u16, pool: Seq<ConstantInfo>, pool_end: int, this_class: u16, super_class: u16, interfaces: Seq<u16>) -> bool {
    &&& magic_ok(b)
    &&& minor == be16(b, 4)
    &&& major == be16(b, 6)
    &&& pool_layout(b, 10, pool_end, pool)
    &&& class_pool(b) == Ok::<(Seq<EntryView>, int), ParseError>((pool_view(pool), pool_end))
    &&& pool_refs_ok(pool_view(pool))
    &&& (this_class != 0 ==> valid_index(this_class, pool.len() as int))
    &&& (super_class != 0 ==> valid_index(super_class, pool.len() as int))
    &&& forall|i: int| 0 <= i < interfaces.len() ==> valid_index(#[trigger] interfaces[i], pool.len() as int)
    &&& fits(b, pool_end, 8)
    &&& be16(b, pool_end) as u16 & !CLASS_FLAG_MASK == 0
    &&& this_class == be16(b, pool_end + 2)
    &&& super_class == be16(b, pool_end + 4)
    &&& interfaces.len() == be16(b, pool_end + 6)
    &&& fits(b, pool_end + 8, 2 * interfaces.len() as int)
    &&& interfaces == u16s_at(b, pool_end + 8, interfaces.len() as int)
}

/// Where the pool of the class file `b` ends, when it can be read.
pub open spec fn pool_end_of(b: Seq<u8>) -> int {
    class_pool(b)->Ok_0.1
}

/// The pool and the members of `c` are what the class file `b` writes.
pub open spec fn class_read(b: Seq<u8>, c: ClassInfo) -> bool {
    exists|p: int| pool_layout(b, 10, p, c.constant_pool.0@) && #[trigger] members_read(b, p, c)
}

/// The class file starts with the magic number `CA FE BA BE`.
pub open spec fn magic_ok(b: Seq<u8>) -> bool {
    b.len() >= 4 && b[0] == 0xCA && b[1] == 0xFE && b[2] == 0xBA && b[3] == 0xBE
}

impl ClassInfo {
    /// Parses a whole class file.
    #[verifier::rlimit(80)]
    pub fn parse(input: &[u8]) -> (r: Result<ClassInfo, ParseError>)
        ensures
            input.len() < 4 ==> r == Err::<ClassInfo, ParseError>(ParseError::UnexpectedEof),
            input.len() >= 4 && !magic_ok(input@) ==> r == Err::<ClassInfo, ParseError>(ParseError::BadMagic),
            r is Err ==> class_defect(input@),
            4 <= input.len() < 10 && magic_ok(input@) ==> r == Err::<ClassInfo, ParseError>(ParseError::UnexpectedEof),
            input.len() >= 10 && magic_ok(input@) ==> class_error(input@, r),
            r matches Ok(c) ==> {
                &&& magic_ok(input@)
                &&& c.minor_version == be16(input@, 4)
                &&& c.major_version == be16(input@, 6)
                &&& class_refs_ok(c)
                &&& class_flags_ok(c)
                &&& (c.this_class != 0 ==> valid_index(c.this_class, c.constant_pool.0.len() as int))
                &&& (c.super_class != 0 ==> valid_index(c.super_class, c.constant_pool.0.len() as int))
                &&& class_read(input@, c)
                &&& class_pool(input@) == Ok::<(Seq<EntryView>, int), ParseError>((c.constant_pool@, pool_end_of(input@)))
            },
    {
        if input.len() < 4 {
            return Err(ParseError::UnexpectedEof);
        }
        if !(input[0] == 0xCA && input[1] == 0xFE && input[2] == 0xBA && input[3] == 0xBE) {
            return Err(ParseError::BadMagic);
        }
        if input.len() < 8 {
            return Err(ParseError::UnexpectedEof);
        }
        let (minor_version, _) = match read_u16(input, 4) { Ok(x) => x, Err(e) => return Err(e) };
        let (major_version, p) = match read_u16(input, 6) { Ok(x) => x, Err(e) => return Err(e) };
        assert(p == 8);
        let (constant_pool, p) = match ConstantPool::parse(input, p) { Ok(x) => x, Err(e) => return Err(e) };
        let ghost pool_end = p;
        if !constant_pool.refs_ok() {
            return Err(ParseError::InvalidPoolIndex);
        }
        let len = constant_pool.0.len();
        let ghost base = p as int;
        let (bits, p) = match read_u16(input, p) { Ok(x) => x, Err(e) => return Err(e) };
        let access_flags = match ClassAccessFlags::from_bits(bits) { Some(f) => f, None => return Err(ParseError::UnknownAccessFlags) };
        if input.len() - p < 6 {
            return Err(ParseError::UnexpectedEof);
        }
        let (this_class, p) = match read_u16(input, p) { Ok(x) => x, Err(e) => return Err(e) };
        let (super_class, p) = match read_u16(input, p) { Ok(x) => x, Err(e) => return Err(e) };
        assert(bits == be16(input@, base) && this_class == be16(input@, base + 2) && super_class == be16(input@, base + 4));
        if (this_class != 0 && !index_ok(this_class, len)) || (super_class != 0 && !index_ok(super_class, len)) {
            assert(class_pool(input@) == Ok::<(Seq<EntryView>, int), ParseError>((constant_pool@, base)));
            assert(!rest_ok(input@, base, constant_pool@));
            return Err(ParseError::InvalidPoolIndex);
        }
        let (n_interfaces, p) = match read_u16(input, p) { Ok(x) => x, Err(e) => return Err(e) };
        assert(p == base + 8);
        let (interfaces, p) = match read_u16s(input, p, n_interfaces as usize) { Ok(x) => x, Err(e) => return Err(e) };
        let mut i: usize = 0;
        while i < interfaces.len()
            invariant
                i <= interfaces.len(),
                input.len() >= 4,
                magic_ok(input@),
                base == pool_end,
                len == constant_pool.0.len(),
                pool_layout(input@, 10, pool_end as int, constant_pool.0@),
                class_pool(input@) == Ok::<(Seq<EntryView>, int), ParseError>((constant_pool@, pool_end as int)),
                n_interfaces == be16(input@, base + 6),
                interfaces@ == u16s_at(input@, base + 8, n_interfaces as int),
                forall|j: int| 0 <= j < i ==> valid_index(#[trigger] interfaces@[j], len as int),
                input.len() >= 10,
                pool_refs_ok(constant_pool@),
                fits(input@, base, 8),
                fits(input@, base + 8, 2 * n_interfaces),
                be16(input@, base) as u16 & !CLASS_FLAG_MASK == 0,
                be16(input@, base + 2) == 0 || valid_index(be16(input@, base + 2) as u16, len as int),
                be16(input@, base + 4) == 0 || valid_index(be16(input@, base + 4) as u16, len as int),
            decreases interfaces.len() - i,
        {
            if !index_ok(interfaces[i], len) {
                proof {
                    assert(interfaces@[i as int] == u16s_at(input@, base + 8, be16(input@, base + 6))[i as int]);
                    assert(!valid_index(u16s_at(input@, base + 8, be16(input@, base + 6))[i as int], len as int));
                    assert(!rest_ok(input@, pool_end as int, constant_pool@));
                    lemma_defect_from_rest(input@, pool_end as int, constant_pool@);
                }
                return Err(ParseError::InvalidPoolIndex);
            }
            i = i + 1;
        }
        proof {
            assert(header_ok(input@, minor_version, major_version, constant_pool.0@, pool_end as int, this_class, super_class, interfaces@));
        }
        let ghost q = p as int;
        let (n_fields, p) = match read_u16(input, p) { Ok(x) => x, Err(e) => return Err(e) };
        let ghost fstart = p as int;
        let ghost mut fends: Seq<int> = Seq::empty();
        let mut fields: Vec<FieldInfo> = Vec::new();
        let mut p = p;
        let mut k: u16 = 0;
        while k < n_fields
            invariant
                len == constant_pool.0.len(),
                input.len() >= 4,
                header_ok(input@, minor_version, major_version, constant_pool.0@, pool_end as int, this_class, super_class, interfaces@),
                access_flags.bits & !CLASS_FLAG_MASK == 0,
                k <= n_fields,
                fields.len() == k,
                p <= input.len(),
                fields_layout(input@, fstart, p as int, constant_pool@, fields@, fends),
                base == pool_end,
                q == base + 8 + 2 * be16(input@, base + 6),
                n_fields == be16(input@, q),
                fstart == q + 2,
                members_ok(input@, fstart, n_fields as nat, constant_pool@, FIELD_FLAG_MASK)
                    == members_ok(input@, p as int, (n_fields - k) as nat, constant_pool@, FIELD_FLAG_MASK),
                members_end(input@, fstart, n_fields as nat) == members_end(input@, p as int, (n_fields - k) as nat),
                forall|j: int| 0 <= j < k ==> valid_index((#[trigger] fields@[j]).name_index, len as int)
                    && valid_index(fields@[j].descriptor_index, len as int)
                    && fields@[j].access_flags.bits & !FIELD_FLAG_MASK == 0,
            decreases n_fields - k,
        {
            let (f, next) = match FieldInfo::parse(input, p, &constant_pool) {
                Ok(x) => x,
                Err(e) => {
                    proof {
                        assert(!rest_ok(input@, pool_end as int, constant_pool@));
                        lemma_defect_from_rest(input@, pool_end as int, constant_pool@);
                        lemma_header_no_error(input@, minor_version, major_version, constant_pool.0@, pool_end as int, this_class, super_class, interfaces@, Err::<ClassInfo, ParseError>(e));
                    }
                    return Err(e);
                },
            };
            proof {
                lemma_member_end(input@, p as int, next as int, constant_pool@, f.access_flags.bits, f.name_index, f.descriptor_index, f.attribute_info@);
            }
            let ghost prev = fields@;
            let ghost pe = fends;
            fields.push(f);
            proof {
                fends = fends.push(next as int);
                assert forall|j: int| 0 <= j < fields.len() implies member_at(input@, if j == 0 { fstart } else { fends[j - 1] }, fends[j], constant_pool@,
                    (#[trigger] fields@[j]).access_flags.bits, fields@[j].name_index, fields@[j].descriptor_index, fields@[j].attribute_info@) by {
                    if j < k {
                        assert(fields@[j] == prev[j]);
                        assert(fends[j] == pe[j]);
                        if j > 0 { assert(fends[j - 1] == pe[j - 1]); }
                    }
                }
            }
            p = next;
            k = k + 1;
        }
        let ghost r = p as int;
        assert(r == members_end(input@, q + 2, be16(input@, q) as nat));
        let (n_methods, p) = match read_u16(input, p) {
            Ok(x) => x,
            Err(e) => {
                proof {
                    assert(!rest_ok(input@, pool_end as int, constant_pool@));
                    lemma_defect_from_rest(input@, pool_end as int, constant_pool@);
                    lemma_header_no_error(input@, minor_version, major_version, constant_pool.0@, pool_end as int, this_class, super_class, interfaces@, Err::<ClassInfo, ParseError>(e));
                }
                return Err(e);
            },
        };
        let ghost mstart = p as int;
        let ghost mut mends: Seq<int> = Seq::empty();
        let mut methods: Vec<MethodInfo> = Vec::new();
        let mut p = p;
        let mut k: u16 = 0;
        while k < n_methods
            invariant
                len == constant_pool.0.len(),
                input.len() >= 4,
                header_ok(input@, minor_version, major_version, constant_pool.0@, pool_end as int, this_class, super_class, interfaces@),
                forall|j: int| 0 <= j < fields.len() ==> valid_index((#[trigger] fields@[j]).name_index, len as int)
                    && valid_index(fields@[j].descriptor_index, len as int)
                    && fields@[j].access_flags.bits & !FIELD_FLAG_MASK == 0,
                access_flags.bits & !CLASS_FLAG_MASK == 0,
                k <= n_methods,
                methods.len() == k,
                p <= input.len(),
                methods_layout(input@, mstart, p as int, constant_pool@, methods@, mends),
                base == pool_end,
                q == base + 8 + 2 * be16(input@, base + 6),
                r == members_end(input@, q + 2, be16(input@, q) as nat),
                n_methods == be16(input@, r),
                mstart == r + 2,
                members_ok(input@, mstart, n_methods as nat, constant_pool@, METHOD_FLAG_MASK)
                    == members_ok(input@, p as int, (n_methods - k) as nat, constant_pool@, METHOD_FLAG_MASK),
                members_end(input@, mstart, n_methods as nat) == members_end(input@, p as int, (n_methods - k) as nat),
                forall|j: int| 0 <= j < k ==> valid_index((#[trigger] methods@[j]).name_index, len as int)
                    && valid_index(methods@[j].descriptor_index, len as int)
                    && methods@[j].access_flags.bits & !METHOD_FLAG_MASK == 0,
            decreases n_methods - k,
        {
            let (m, next) = match MethodInfo::parse(input, p, &constant_pool) {
                Ok(x) => x,
                Err(e) => {
                    proof {
                        assert(!rest_ok(input@, pool_end as int, constant_pool@));
                        lemma_defect_from_rest(input@, pool_end as int, constant_pool@);
                        lemma_header_no_error(input@, minor_version, major_version, constant_pool.0@, pool_end as int, this_class, super_class, interfaces@, Err::<ClassInfo, ParseError>(e));
                    }
                    return Err(e);
                },
            };
            proof {
                lemma_member_end(input@, p as int, next as int, constant_pool@, m.access_flags.bits, m.name_index, m.descriptor_index, m.attribute_info@);
            }
            let ghost prev = methods@;
            let ghost pe = mends;
            methods.push(m);
            proof {
                mends = mends.push(next as int);
                assert forall|j: int| 0 <= j < methods.len() implies member_at(input@, if j == 0 { mstart } else { mends[j - 1] }, mends[j], constant_pool@,
                    (#[trigger] methods@[j]).access_flags.bits, methods@[j].name_index, methods@[j].descriptor_index, methods@[j].attribute_info@) by {
                    if j < k {
                        assert(methods@[j] == prev[j]);
                        assert(mends[j] == pe[j]);
                        if j > 0 { assert(mends[j - 1] == pe[j - 1]); }
                    }
                }
            }
            p = next;
            k = k + 1;
        }
        let ghost t = p as int;
        assert(t == members_end(input@, r + 2, be16(input@, r) as nat));
        let (n_attributes, p) = match read_u16(input, p) {
            Ok(x) => x,
            Err(e) => {
                proof {
                    assert(!rest_ok(input@, pool_end as int, constant_pool@));
                    lemma_defect_from_rest(input@, pool_end as int, constant_pool@);
                    lemma_header_no_error(input@, minor_version, major_version, constant_pool.0@, pool_end as int, this_class, super_class, interfaces@, Err::<ClassInfo, ParseError>(e));
                }
                return Err(e);
            },
        };
        let (attributes, u) = match parse_attributes(input, p, n_attributes, &constant_pool) {
            Ok(x) => x,
            Err(e) => {
                proof {
                    assert(!rest_ok(input@, pool_end as int, constant_pool@));
                    lemma_defect_from_rest(input@, pool_end as int, constant_pool@);
                    lemma_header_no_error(input@, minor_version, major_version, constant_pool.0@, pool_end as int, this_class, super_class, interfaces@, Err::<ClassInfo, ParseError>(e));
                }
                return Err(e);
            },
        };
        assert(header_ok(input@, minor_version, major_version, constant_pool.0@, pool_end as int, this_class, super_class, interfaces@));
        let c = ClassInfo {
            minor_version,
            major_version,
            constant_pool,
            access_flags,
            this_class,
            super_class,
            interfaces,
            fields,
            methods,
            attributes,
        };
        proof {
            assert(pool_layout(input@, 10, pool_end as int, c.constant_pool.0@));
            assert(q == base + 8 + 2 * c.interfaces.len());
            assert(attributes_layout(input@, t + 2, u as int, c.constant_pool@, c.attributes@));
            assert(methods_layout(input@, r + 2, t, c.constant_pool@, c.methods@, mends));
            assert(fields_layout(input@, q + 2, r, c.constant_pool@, c.fields@, fends));
            assert(members_read(input@, pool_end as int, c));
            assert(pool_layout(input@, 10, pool_end as int, c.constant_pool.0@) && members_read(input@, pool_end as int, c));
            assert(class_read(input@, c));
        }
        Ok(c)
    }
}

/// The one-based index of the UTF8 entry that holds the descriptor of the
/// method that entry `i` refers to, through its name-and-type entry.
pub open spec fn method_descriptor_index(pool: Seq<EntryView>, i: int) -> Option<int> {
    if 1 <= i <= pool.len() {
        let nt = match pool[i - 1] {
            EntryView::Method { name_and_type_index, .. } => Some(name_and_type_index as int),
            EntryView::Interface { name_and_type_index, .. } => Some(name_and_type_index as int),
            EntryView::InvokeDynamic { name_and_type_index, .. } => Some(name_and_type_index as int),
            _ => None,
        };
        match nt {
            Some(n) => if 1 <= n <= pool.len() {
                match pool[n - 1] {
                    EntryView::NameAndType { descriptor_index, .. } => if utf8_entry(pool, descriptor_index as int) is Some {
                        Some(descriptor_index as int)
                    } else {
                        None
                    },
                    _ => None,
                }
            } else {
                None
            },
            None => None,
        }
    } else {
        None
    }
}

impl ConstantPool {
    /// The method descriptor held by the UTF8 entry at `index`.
    pub fn get_method_descriptor(&self, index: u16) -> (r: Result<MethodDescriptor, ParseError>)
        ensures
            match utf8_entry(self@, index as int) {
                None => r == Err::<MethodDescriptor, ParseError>(ParseError::InvalidPoolIndex),
                Some(text) => {
                    &&& (r is Ok <==> method_shape(text) is Some)
                    &&& (r is Err ==> r == Err::<MethodDescriptor, ParseError>(ParseError::InvalidDescriptor))
                    &&& (r matches Ok(md) ==> {
                        let (starts, f) = method_shape(text)->Some_0;
                        &&& encodes_all(md.params@, text, starts, f - 1)
                        &&& encodes(md.return_type, text, f, text.len() as int)
                    })
                },
            },
    {
        match self.get(index) {
            Some(ConstantInfo::UTF8 { text }) => {
                assert(self@[index - 1] == entry_view(self.0@[index - 1]));
                match ConstantInfo::parse_method_descriptor(text.as_str()) {
                    Some(md) => Ok(md),
                    None => Err(ParseError::InvalidDescriptor),
                }
            },
            _ => {
                assert(index >= 1 && index <= self.0.len() ==> self@[index - 1] == entry_view(self.0@[index - 1]));
                Err(ParseError::InvalidPoolIndex)
            },
        }
    }

    /// The descriptor of the method that entry `index` refers to: a method,
    /// interface method or dynamic call site entry, through its name and
    /// type entry to the UTF8 descriptor.
    pub fn called_method_descriptor(&self, index: u16) -> (r: Result<MethodDescriptor, ParseError>)
        ensures
            match method_descriptor_index(self@, index as int) {
                None => r == Err::<MethodDescriptor, ParseError>(ParseError::InvalidPoolIndex),
                Some(d) => {
                    let text = utf8_entry(self@, d)->Some_0;
                    &&& (r is Ok <==> method_shape(text) is Some)
                    &&& (r is Err ==> r == Err::<MethodDescriptor, ParseError>(ParseError::InvalidDescriptor))
                    &&& (r matches Ok(md) ==> {
                        let (starts, f) = method_shape(text)->Some_0;
                        &&& encodes_all(md.params@, text, starts, f - 1)
                        &&& encodes(md.return_type, text, f, text.len() as int)
                    })
                },
            },
    {
        let nt = match self.get(index) {
            Some(ConstantInfo::Method { name_and_type_index, .. }) => *name_and_type_index,
            Some(ConstantInfo::Interface { name_and_type_index, .. }) => *name_and_type_index,
            Some(ConstantInfo::InvokeDynamic { name_and_type_index, .. }) => *name_and_type_index,
            _ => return Err(ParseError::InvalidPoolIndex),
        };
        let d = match self.get(nt) {
            Some(ConstantInfo::NameAndType { descriptor_index, .. }) => *descriptor_index,
            _ => return Err(ParseError::InvalidPoolIndex),
        };
        self.get_method_descriptor(d)
    }
}

} // verus!
