//! The runtime library as compiled programs see it: which functions there are, and what
//! each takes and returns.

use vstd::prelude::*;

verus! {

/// The machine kinds a value can have.
#[derive(Debug, Clone, Copy, PartialEq, Eq, Structural)]
pub enum Kind {
    /// One bit: a `bool`.
    Bit,
    Byte,
    /// 32 bits: tags, digit counts and the outcome of an ordering.
    Small,
    /// 64 bits: byte lengths and shapes.
    Long,
    /// 128 bits: an `int`.
    Word,
    /// Mantissa, scale, failed.
    Deci,
    /// Numerator, denominator, failed.
    Rat,
    /// Pointer, byte length, owner.
    Text,
    Ptr,
}

/// A function of the runtime that compiled programs call.
#[derive(Debug, Clone, Copy, PartialEq, Eq, Structural)]
pub enum Rt {
    DeciAdd,
    DeciSub,
    DeciMul,
    DeciBinary,
    RatBinary,
    DeciIntDiv,
    Constant,
    RatAdd,
    RatSub,
    RatMul,
    RatDiv,
    RatFromInt,
    RatOrder,
    PrintRat,
    PrintText,
    Clock,
    StrOrder,
    ReadFile,
    ParseInt,
    NumFromInt,
    NumFromBool,
    NumFromDeci,
    NumFromRat,
    NumBinary,
    ArrayOffset,
    ArrayRelate,
    ArrayUnary,
    NumUnary,
    NumOrder,
    PrintNum,
    NumToInt,
    NumToDeci,
    NumToRat,
    DeciUnary,
    RatUnary,
    ArrayNew,
    ArrayLen,
    ArrayKind,
    ArrayShape,
    ArraySum,
    ArrayEmpty,
    ArrayPushInt,
    ArrayPushArray,
    ArrayRetain,
    ArrayRelease,
    NumRetain,
    NumRelease,
    StrRetain,
    StrRelease,
    ArrayPushBool,
    ArrayPushDeci,
    ArrayPushRat,
    ArrayPushStr,
    ArrayPushNum,
    PrintArray,
    ArraySelectRun,
    ArrayIsScalar,
    ArrayRange,
    ArrayElementwise,
    ArrayHadamard,
    ArrayDot,
    ArrayCross,
    ArrayTensor,
    ArraySetInt,
    ArrayGetInt,
    ArraySetBool,
    ArrayGetBool,
    ArraySetNum,
    ArrayGetNum,
    ArraySetDeci,
    ArraySetRat,
    ArraySetStr,
    ArrayGetDeci,
    ArrayGetRat,
    ArrayGetStr,
    ParseDeci,
    ParseRat,
    DeciDiv,
    DeciOrder,
    DeciFromInt,
    PrintDeci,
    PrintInt,
    PrintBool,
    IntDiv,
    IntMod,
    PrintStr,
    PrintNewline,
    Fail,
}

/// The symbol a runtime function is linked by.
pub open spec fn rt_symbol(f: Rt) -> Seq<char> {
    match f {
        Rt::DeciAdd => "ahpcl_deci_add"@,
        Rt::DeciSub => "ahpcl_deci_sub"@,
        Rt::DeciMul => "ahpcl_deci_mul"@,
        Rt::DeciBinary => "ahpcl_deci_binary"@,
        Rt::RatBinary => "ahpcl_rat_binary"@,
        Rt::DeciIntDiv => "ahpcl_deci_int_div"@,
        Rt::Constant => "ahpcl_constant"@,
        Rt::RatAdd => "ahpcl_rat_add"@,
        Rt::RatSub => "ahpcl_rat_sub"@,
        Rt::RatMul => "ahpcl_rat_mul"@,
        Rt::RatDiv => "ahpcl_rat_div"@,
        Rt::RatFromInt => "ahpcl_rat_from_int"@,
        Rt::RatOrder => "ahpcl_rat_cmp"@,
        Rt::PrintRat => "ahpcl_print_rat"@,
        Rt::PrintText => "ahpcl_print_text"@,
        Rt::Clock => "ahpcl_clock"@,
        Rt::StrOrder => "ahpcl_str_cmp"@,
        Rt::ReadFile => "ahpcl_read_file"@,
        Rt::ParseInt => "ahpcl_parse_int"@,
        Rt::NumFromInt => "ahpcl_num_from_int"@,
        Rt::NumFromBool => "ahpcl_num_from_bool"@,
        Rt::NumFromDeci => "ahpcl_num_from_deci"@,
        Rt::NumFromRat => "ahpcl_num_from_rat"@,
        Rt::NumBinary => "ahpcl_num_binary"@,
        Rt::ArrayOffset => "ahpcl_array_offset"@,
        Rt::ArrayRelate => "ahpcl_array_compare"@,
        Rt::ArrayUnary => "ahpcl_array_unary"@,
        Rt::NumUnary => "ahpcl_num_unary"@,
        Rt::NumOrder => "ahpcl_num_cmp"@,
        Rt::PrintNum => "ahpcl_print_num"@,
        Rt::NumToInt => "ahpcl_num_to_int"@,
        Rt::NumToDeci => "ahpcl_num_to_deci"@,
        Rt::NumToRat => "ahpcl_num_to_rat"@,
        Rt::DeciUnary => "ahpcl_deci_unary"@,
        Rt::RatUnary => "ahpcl_rat_unary"@,
        Rt::ArrayNew => "ahpcl_array_new"@,
        Rt::ArrayLen => "ahpcl_array_len"@,
        Rt::ArrayKind => "ahpcl_array_kind"@,
        Rt::ArrayShape => "ahpcl_array_shape"@,
        Rt::ArraySum => "ahpcl_array_sum"@,
        Rt::ArrayEmpty => "ahpcl_array_empty"@,
        Rt::ArrayPushInt => "ahpcl_array_push_int"@,
        Rt::ArrayPushArray => "ahpcl_array_push_array"@,
        Rt::ArrayRetain => "ahpcl_array_retain"@,
        Rt::ArrayRelease => "ahpcl_array_release"@,
        Rt::NumRetain => "ahpcl_num_retain"@,
        Rt::NumRelease => "ahpcl_num_release"@,
        Rt::StrRetain => "ahpcl_str_retain"@,
        Rt::StrRelease => "ahpcl_str_release"@,
        Rt::ArrayPushBool => "ahpcl_array_push_bool"@,
        Rt::ArrayPushDeci => "ahpcl_array_push_deci"@,
        Rt::ArrayPushRat => "ahpcl_array_push_rat"@,
        Rt::ArrayPushStr => "ahpcl_array_push_str"@,
        Rt::ArrayPushNum => "ahpcl_array_push_num"@,
        Rt::PrintArray => "ahpcl_print_array"@,
        Rt::ArraySelectRun => "ahpcl_array_select_run"@,
        Rt::ArrayIsScalar => "ahpcl_array_is_scalar"@,
        Rt::ArrayRange => "ahpcl_array_range"@,
        Rt::ArrayElementwise => "ahpcl_array_elementwise"@,
        Rt::ArrayHadamard => "ahpcl_array_hadamard"@,
        Rt::ArrayDot => "ahpcl_array_dot"@,
        Rt::ArrayCross => "ahpcl_array_cross"@,
        Rt::ArrayTensor => "ahpcl_array_tensor"@,
        Rt::ArraySetInt => "ahpcl_array_set_int"@,
        Rt::ArrayGetInt => "ahpcl_array_get_int"@,
        Rt::ArraySetBool => "ahpcl_array_set_bool"@,
        Rt::ArrayGetBool => "ahpcl_array_get_bool"@,
        Rt::ArraySetNum => "ahpcl_array_set_num"@,
        Rt::ArrayGetNum => "ahpcl_array_get_num"@,
        Rt::ArraySetDeci => "ahpcl_array_set_deci"@,
        Rt::ArraySetRat => "ahpcl_array_set_rat"@,
        Rt::ArraySetStr => "ahpcl_array_set_str"@,
        Rt::ArrayGetDeci => "ahpcl_array_get_deci"@,
        Rt::ArrayGetRat => "ahpcl_array_get_rat"@,
        Rt::ArrayGetStr => "ahpcl_array_get_str"@,
        Rt::ParseDeci => "ahpcl_parse_deci"@,
        Rt::ParseRat => "ahpcl_parse_rat"@,
        Rt::DeciDiv => "ahpcl_deci_div"@,
        Rt::DeciOrder => "ahpcl_deci_cmp"@,
        Rt::DeciFromInt => "ahpcl_deci_from_int"@,
        Rt::PrintDeci => "ahpcl_print_deci"@,
        Rt::PrintInt => "ahpcl_print_int"@,
        Rt::PrintBool => "ahpcl_print_bool"@,
        Rt::IntDiv => "ahpcl_int_div"@,
        Rt::IntMod => "ahpcl_int_mod"@,
        Rt::PrintStr => "ahpcl_print_str"@,
        Rt::PrintNewline => "ahpcl_print_newline"@,
        Rt::Fail => "ahpcl_fail"@,
    }
}

/// What a runtime function takes. Everything wider than a machine word crosses by pointer:
/// a struct passed by value means one thing to LLVM and another to the C convention.
pub open spec fn takes(f: Rt) -> Seq<Kind> {
    match f {
        Rt::DeciAdd | Rt::DeciSub | Rt::DeciMul | Rt::RatAdd | Rt::RatSub | Rt::RatMul | Rt::RatDiv => seq![Kind::Ptr, Kind::Ptr, Kind::Ptr],
        Rt::DeciBinary | Rt::RatBinary => seq![Kind::Ptr, Kind::Small, Kind::Ptr, Kind::Ptr],
        Rt::DeciIntDiv | Rt::RatOrder | Rt::StrOrder | Rt::ReadFile | Rt::NumOrder | Rt::NumToDeci
        | Rt::NumToRat | Rt::ArrayPushArray | Rt::ArrayPushDeci | Rt::ArrayPushRat | Rt::ArrayPushStr
        | Rt::ArrayPushNum | Rt::ArrayHadamard | Rt::ArrayDot | Rt::ArrayCross | Rt::ArrayTensor
        | Rt::DeciOrder | Rt::Fail => seq![Kind::Ptr, Kind::Ptr],
        Rt::Constant => seq![Kind::Ptr, Kind::Small, Kind::Small],
        Rt::RatFromInt | Rt::ArrayPushInt | Rt::ArrayGetInt | Rt::ArrayGetBool | Rt::ArrayGetNum
        | Rt::DeciFromInt => seq![Kind::Ptr, Kind::Word],
        Rt::PrintRat | Rt::PrintText | Rt::Clock | Rt::NumFromDeci | Rt::NumFromRat | Rt::PrintNum
        | Rt::NumToInt | Rt::ArrayLen | Rt::ArrayKind | Rt::ArrayShape | Rt::ArraySum | Rt::ArrayRetain
        | Rt::ArrayRelease | Rt::NumRetain | Rt::NumRelease | Rt::StrRetain | Rt::StrRelease
        | Rt::PrintArray | Rt::ArrayIsScalar | Rt::PrintDeci | Rt::PrintStr => seq![Kind::Ptr],
        Rt::ParseInt => seq![Kind::Ptr, Kind::Long, Kind::Ptr, Kind::Ptr],
        Rt::NumFromInt | Rt::PrintInt => seq![Kind::Word],
        Rt::NumFromBool | Rt::PrintBool => seq![Kind::Byte],
        Rt::NumBinary | Rt::ArrayRelate | Rt::ArrayElementwise => seq![Kind::Small, Kind::Ptr, Kind::Ptr],
        Rt::ArrayOffset | Rt::ArrayGetDeci | Rt::ArrayGetRat | Rt::ArrayGetStr => seq![Kind::Ptr, Kind::Ptr, Kind::Word],
        Rt::ArrayUnary | Rt::NumUnary => seq![Kind::Small, Kind::Ptr, Kind::Small],
        Rt::DeciUnary | Rt::RatUnary => seq![Kind::Ptr, Kind::Small, Kind::Ptr, Kind::Small],
        Rt::ArrayNew => seq![Kind::Small, Kind::Small, Kind::Ptr],
        Rt::ArrayEmpty => seq![Kind::Small],
        Rt::ArrayPushBool => seq![Kind::Ptr, Kind::Byte],
        Rt::ArraySelectRun => seq![Kind::Ptr, Kind::Ptr, Kind::Ptr, Kind::Ptr, Kind::Ptr, Kind::Word],
        Rt::ArrayRange => seq![Kind::Ptr, Kind::Word, Kind::Word, Kind::Word],
        Rt::ArraySetInt => seq![Kind::Ptr, Kind::Word, Kind::Word],
        Rt::ArraySetBool => seq![Kind::Ptr, Kind::Word, Kind::Byte],
        Rt::ArraySetNum | Rt::ArraySetDeci | Rt::ArraySetRat | Rt::ArraySetStr => seq![Kind::Ptr, Kind::Word, Kind::Ptr],
        Rt::ParseDeci | Rt::ParseRat => seq![Kind::Ptr, Kind::Ptr, Kind::Long, Kind::Ptr, Kind::Ptr],
        Rt::DeciDiv => seq![Kind::Ptr, Kind::Ptr, Kind::Ptr, Kind::Small],
        Rt::IntDiv | Rt::IntMod => seq![Kind::Word, Kind::Word],
        Rt::PrintNewline => Seq::<Kind>::empty(),
    }
}

/// What a runtime function returns, where it returns a value.
pub open spec fn gives(f: Rt) -> Option<Kind> {
    match f {
        Rt::DeciAdd | Rt::DeciSub | Rt::DeciMul | Rt::DeciBinary | Rt::RatBinary | Rt::Constant | Rt::RatAdd
        | Rt::RatSub | Rt::RatMul | Rt::RatDiv | Rt::RatFromInt | Rt::PrintRat | Rt::PrintText | Rt::Clock
        | Rt::ReadFile | Rt::PrintNum | Rt::NumToDeci | Rt::NumToRat | Rt::DeciUnary | Rt::RatUnary
        | Rt::ArrayPushInt | Rt::ArrayPushArray | Rt::ArrayRetain | Rt::ArrayRelease | Rt::NumRetain
        | Rt::NumRelease | Rt::StrRetain | Rt::StrRelease | Rt::ArrayPushBool | Rt::ArrayPushDeci
        | Rt::ArrayPushRat | Rt::ArrayPushStr | Rt::ArrayPushNum | Rt::PrintArray | Rt::ArraySetInt
        | Rt::ArraySetBool | Rt::ArraySetNum | Rt::ArraySetDeci | Rt::ArraySetRat | Rt::ArraySetStr
        | Rt::ArrayGetDeci | Rt::ArrayGetRat | Rt::ArrayGetStr | Rt::ParseDeci | Rt::ParseRat | Rt::DeciDiv
        | Rt::DeciFromInt | Rt::PrintDeci | Rt::PrintInt | Rt::PrintBool | Rt::PrintStr | Rt::PrintNewline
        | Rt::Fail => None,
        Rt::DeciIntDiv | Rt::ParseInt | Rt::ArrayOffset | Rt::NumToInt | Rt::ArrayLen | Rt::ArrayGetInt
        | Rt::IntDiv | Rt::IntMod => Some(Kind::Word),
        Rt::RatOrder | Rt::StrOrder | Rt::NumOrder | Rt::ArrayKind | Rt::ArrayIsScalar | Rt::DeciOrder => Some(Kind::Small),
        Rt::NumFromInt | Rt::NumFromBool | Rt::NumFromDeci | Rt::NumFromRat | Rt::NumBinary
        | Rt::ArrayRelate | Rt::ArrayUnary | Rt::NumUnary | Rt::ArrayNew | Rt::ArrayShape | Rt::ArraySum
        | Rt::ArrayEmpty | Rt::ArraySelectRun | Rt::ArrayRange | Rt::ArrayElementwise | Rt::ArrayHadamard
        | Rt::ArrayDot | Rt::ArrayCross | Rt::ArrayTensor | Rt::ArrayGetNum => Some(Kind::Ptr),
        Rt::ArrayGetBool => Some(Kind::Byte),
    }
}

impl Rt {
    pub fn symbol(self) -> (r: &'static str)
        ensures
            r@ == rt_symbol(self),
    {
        match self {
            Rt::DeciAdd => "ahpcl_deci_add",
            Rt::DeciSub => "ahpcl_deci_sub",
            Rt::DeciMul => "ahpcl_deci_mul",
            Rt::DeciBinary => "ahpcl_deci_binary",
            Rt::RatBinary => "ahpcl_rat_binary",
            Rt::DeciIntDiv => "ahpcl_deci_int_div",
            Rt::Constant => "ahpcl_constant",
            Rt::RatAdd => "ahpcl_rat_add",
            Rt::RatSub => "ahpcl_rat_sub",
            Rt::RatMul => "ahpcl_rat_mul",
            Rt::RatDiv => "ahpcl_rat_div",
            Rt::RatFromInt => "ahpcl_rat_from_int",
            Rt::RatOrder => "ahpcl_rat_cmp",
            Rt::PrintRat => "ahpcl_print_rat",
            Rt::PrintText => "ahpcl_print_text",
            Rt::Clock => "ahpcl_clock",
            Rt::StrOrder => "ahpcl_str_cmp",
            Rt::ReadFile => "ahpcl_read_file",
            Rt::ParseInt => "ahpcl_parse_int",
            Rt::NumFromInt => "ahpcl_num_from_int",
            Rt::NumFromBool => "ahpcl_num_from_bool",
            Rt::NumFromDeci => "ahpcl_num_from_deci",
            Rt::NumFromRat => "ahpcl_num_from_rat",
            Rt::NumBinary => "ahpcl_num_binary",
            Rt::ArrayOffset => "ahpcl_array_offset",
            Rt::ArrayRelate => "ahpcl_array_compare",
            Rt::ArrayUnary => "ahpcl_array_unary",
            Rt::NumUnary => "ahpcl_num_unary",
            Rt::NumOrder => "ahpcl_num_cmp",
            Rt::PrintNum => "ahpcl_print_num",
            Rt::NumToInt => "ahpcl_num_to_int",
            Rt::NumToDeci => "ahpcl_num_to_deci",
            Rt::NumToRat => "ahpcl_num_to_rat",
            Rt::DeciUnary => "ahpcl_deci_unary",
            Rt::RatUnary => "ahpcl_rat_unary",
            Rt::ArrayNew => "ahpcl_array_new",
            Rt::ArrayLen => "ahpcl_array_len",
            Rt::ArrayKind => "ahpcl_array_kind",
            Rt::ArrayShape => "ahpcl_array_shape",
            Rt::ArraySum => "ahpcl_array_sum",
            Rt::ArrayEmpty => "ahpcl_array_empty",
            Rt::ArrayPushInt => "ahpcl_array_push_int",
            Rt::ArrayPushArray => "ahpcl_array_push_array",
            Rt::ArrayRetain => "ahpcl_array_retain",
            Rt::ArrayRelease => "ahpcl_array_release",
            Rt::NumRetain => "ahpcl_num_retain",
            Rt::NumRelease => "ahpcl_num_release",
            Rt::StrRetain => "ahpcl_str_retain",
            Rt::StrRelease => "ahpcl_str_release",
            Rt::ArrayPushBool => "ahpcl_array_push_bool",
            Rt::ArrayPushDeci => "ahpcl_array_push_deci",
            Rt::ArrayPushRat => "ahpcl_array_push_rat",
            Rt::ArrayPushStr => "ahpcl_array_push_str",
            Rt::ArrayPushNum => "ahpcl_array_push_num",
            Rt::PrintArray => "ahpcl_print_array",
            Rt::ArraySelectRun => "ahpcl_array_select_run",
            Rt::ArrayIsScalar => "ahpcl_array_is_scalar",
            Rt::ArrayRange => "ahpcl_array_range",
            Rt::ArrayElementwise => "ahpcl_array_elementwise",
            Rt::ArrayHadamard => "ahpcl_array_hadamard",
            Rt::ArrayDot => "ahpcl_array_dot",
            Rt::ArrayCross => "ahpcl_array_cross",
            Rt::ArrayTensor => "ahpcl_array_tensor",
            Rt::ArraySetInt => "ahpcl_array_set_int",
            Rt::ArrayGetInt => "ahpcl_array_get_int",
            Rt::ArraySetBool => "ahpcl_array_set_bool",
            Rt::ArrayGetBool => "ahpcl_array_get_bool",
            Rt::ArraySetNum => "ahpcl_array_set_num",
            Rt::ArrayGetNum => "ahpcl_array_get_num",
            Rt::ArraySetDeci => "ahpcl_array_set_deci",
            Rt::ArraySetRat => "ahpcl_array_set_rat",
            Rt::ArraySetStr => "ahpcl_array_set_str",
            Rt::ArrayGetDeci => "ahpcl_array_get_deci",
            Rt::ArrayGetRat => "ahpcl_array_get_rat",
            Rt::ArrayGetStr => "ahpcl_array_get_str",
            Rt::ParseDeci => "ahpcl_parse_deci",
            Rt::ParseRat => "ahpcl_parse_rat",
            Rt::DeciDiv => "ahpcl_deci_div",
            Rt::DeciOrder => "ahpcl_deci_cmp",
            Rt::DeciFromInt => "ahpcl_deci_from_int",
            Rt::PrintDeci => "ahpcl_print_deci",
            Rt::PrintInt => "ahpcl_print_int",
            Rt::PrintBool => "ahpcl_print_bool",
            Rt::IntDiv => "ahpcl_int_div",
            Rt::IntMod => "ahpcl_int_mod",
            Rt::PrintStr => "ahpcl_print_str",
            Rt::PrintNewline => "ahpcl_print_newline",
            Rt::Fail => "ahpcl_fail",
        }
    }

    pub fn takes(self) -> (r: Vec<Kind>)
        ensures
            r@ == takes(self),
    {
        let r: Vec<Kind> = match self {
            Rt::DeciAdd | Rt::DeciSub | Rt::DeciMul | Rt::RatAdd | Rt::RatSub | Rt::RatMul | Rt::RatDiv => vec![Kind::Ptr, Kind::Ptr, Kind::Ptr],
            Rt::DeciBinary | Rt::RatBinary => vec![Kind::Ptr, Kind::Small, Kind::Ptr, Kind::Ptr],
            Rt::DeciIntDiv | Rt::RatOrder | Rt::StrOrder | Rt::ReadFile | Rt::NumOrder | Rt::NumToDeci
            | Rt::NumToRat | Rt::ArrayPushArray | Rt::ArrayPushDeci | Rt::ArrayPushRat | Rt::ArrayPushStr
            | Rt::ArrayPushNum | Rt::ArrayHadamard | Rt::ArrayDot | Rt::ArrayCross | Rt::ArrayTensor
            | Rt::DeciOrder | Rt::Fail => vec![Kind::Ptr, Kind::Ptr],
            Rt::Constant => vec![Kind::Ptr, Kind::Small, Kind::Small],
            Rt::RatFromInt | Rt::ArrayPushInt | Rt::ArrayGetInt | Rt::ArrayGetBool | Rt::ArrayGetNum
            | Rt::DeciFromInt => vec![Kind::Ptr, Kind::Word],
            Rt::PrintRat | Rt::PrintText | Rt::Clock | Rt::NumFromDeci | Rt::NumFromRat | Rt::PrintNum
            | Rt::NumToInt | Rt::ArrayLen | Rt::ArrayKind | Rt::ArrayShape | Rt::ArraySum | Rt::ArrayRetain
            | Rt::ArrayRelease | Rt::NumRetain | Rt::NumRelease | Rt::StrRetain | Rt::StrRelease
            | Rt::PrintArray | Rt::ArrayIsScalar | Rt::PrintDeci | Rt::PrintStr => vec![Kind::Ptr],
            Rt::ParseInt => vec![Kind::Ptr, Kind::Long, Kind::Ptr, Kind::Ptr],
            Rt::NumFromInt | Rt::PrintInt => vec![Kind::Word],
            Rt::NumFromBool | Rt::PrintBool => vec![Kind::Byte],
            Rt::NumBinary | Rt::ArrayRelate | Rt::ArrayElementwise => vec![Kind::Small, Kind::Ptr, Kind::Ptr],
            Rt::ArrayOffset | Rt::ArrayGetDeci | Rt::ArrayGetRat | Rt::ArrayGetStr => vec![Kind::Ptr, Kind::Ptr, Kind::Word],
            Rt::ArrayUnary | Rt::NumUnary => vec![Kind::Small, Kind::Ptr, Kind::Small],
            Rt::DeciUnary | Rt::RatUnary => vec![Kind::Ptr, Kind::Small, Kind::Ptr, Kind::Small],
            Rt::ArrayNew => vec![Kind::Small, Kind::Small, Kind::Ptr],
            Rt::ArrayEmpty => vec![Kind::Small],
            Rt::ArrayPushBool => vec![Kind::Ptr, Kind::Byte],
            Rt::ArraySelectRun => vec![Kind::Ptr, Kind::Ptr, Kind::Ptr, Kind::Ptr, Kind::Ptr, Kind::Word],
            Rt::ArrayRange => vec![Kind::Ptr, Kind::Word, Kind::Word, Kind::Word],
            Rt::ArraySetInt => vec![Kind::Ptr, Kind::Word, Kind::Word],
            Rt::ArraySetBool => vec![Kind::Ptr, Kind::Word, Kind::Byte],
            Rt::ArraySetNum | Rt::ArraySetDeci | Rt::ArraySetRat | Rt::ArraySetStr => vec![Kind::Ptr, Kind::Word, Kind::Ptr],
            Rt::ParseDeci | Rt::ParseRat => vec![Kind::Ptr, Kind::Ptr, Kind::Long, Kind::Ptr, Kind::Ptr],
            Rt::DeciDiv => vec![Kind::Ptr, Kind::Ptr, Kind::Ptr, Kind::Small],
            Rt::IntDiv | Rt::IntMod => vec![Kind::Word, Kind::Word],
            Rt::PrintNewline => Vec::new(),
        };
        assert(r@ =~= takes(self));
        r
    }

    pub fn gives(self) -> (r: Option<Kind>)
        ensures
            r == gives(self),
    {
        match self {
            Rt::DeciAdd | Rt::DeciSub | Rt::DeciMul | Rt::DeciBinary | Rt::RatBinary | Rt::Constant | Rt::RatAdd
            | Rt::RatSub | Rt::RatMul | Rt::RatDiv | Rt::RatFromInt | Rt::PrintRat | Rt::PrintText | Rt::Clock
            | Rt::ReadFile | Rt::PrintNum | Rt::NumToDeci | Rt::NumToRat | Rt::DeciUnary | Rt::RatUnary
            | Rt::ArrayPushInt | Rt::ArrayPushArray | Rt::ArrayRetain | Rt::ArrayRelease | Rt::NumRetain
            | Rt::NumRelease | Rt::StrRetain | Rt::StrRelease | Rt::ArrayPushBool | Rt::ArrayPushDeci
            | Rt::ArrayPushRat | Rt::ArrayPushStr | Rt::ArrayPushNum | Rt::PrintArray | Rt::ArraySetInt
            | Rt::ArraySetBool | Rt::ArraySetNum | Rt::ArraySetDeci | Rt::ArraySetRat | Rt::ArraySetStr
            | Rt::ArrayGetDeci | Rt::ArrayGetRat | Rt::ArrayGetStr | Rt::ParseDeci | Rt::ParseRat | Rt::DeciDiv
            | Rt::DeciFromInt | Rt::PrintDeci | Rt::PrintInt | Rt::PrintBool | Rt::PrintStr | Rt::PrintNewline
            | Rt::Fail => None,
            Rt::DeciIntDiv | Rt::ParseInt | Rt::ArrayOffset | Rt::NumToInt | Rt::ArrayLen | Rt::ArrayGetInt
            | Rt::IntDiv | Rt::IntMod => Some(Kind::Word),
            Rt::RatOrder | Rt::StrOrder | Rt::NumOrder | Rt::ArrayKind | Rt::ArrayIsScalar | Rt::DeciOrder => Some(Kind::Small),
            Rt::NumFromInt | Rt::NumFromBool | Rt::NumFromDeci | Rt::NumFromRat | Rt::NumBinary
            | Rt::ArrayRelate | Rt::ArrayUnary | Rt::NumUnary | Rt::ArrayNew | Rt::ArrayShape | Rt::ArraySum
            | Rt::ArrayEmpty | Rt::ArraySelectRun | Rt::ArrayRange | Rt::ArrayElementwise | Rt::ArrayHadamard
            | Rt::ArrayDot | Rt::ArrayCross | Rt::ArrayTensor | Rt::ArrayGetNum => Some(Kind::Ptr),
            Rt::ArrayGetBool => Some(Kind::Byte),
        }
    }
}

/// Every runtime function, in the order they are declared.
pub open spec fn runtime_functions() -> Seq<Rt> {
    seq![
        Rt::DeciAdd, Rt::DeciSub, Rt::DeciMul, Rt::DeciBinary, Rt::RatBinary, Rt::DeciIntDiv, Rt::Constant,
        Rt::RatAdd, Rt::RatSub, Rt::RatMul, Rt::RatDiv, Rt::RatFromInt, Rt::RatOrder, Rt::PrintRat,
        Rt::PrintText, Rt::Clock, Rt::StrOrder, Rt::ReadFile, Rt::ParseInt, Rt::NumFromInt, Rt::NumFromBool,
        Rt::NumFromDeci, Rt::NumFromRat, Rt::NumBinary, Rt::ArrayOffset, Rt::ArrayRelate, Rt::ArrayUnary,
        Rt::NumUnary, Rt::NumOrder, Rt::PrintNum, Rt::NumToInt, Rt::NumToDeci, Rt::NumToRat, Rt::DeciUnary,
        Rt::RatUnary, Rt::ArrayNew, Rt::ArrayLen, Rt::ArrayKind, Rt::ArrayShape, Rt::ArraySum,
        Rt::ArrayEmpty, Rt::ArrayPushInt, Rt::ArrayPushArray, Rt::ArrayRetain, Rt::ArrayRelease,
        Rt::NumRetain, Rt::NumRelease, Rt::StrRetain, Rt::StrRelease, Rt::ArrayPushBool, Rt::ArrayPushDeci,
        Rt::ArrayPushRat, Rt::ArrayPushStr, Rt::ArrayPushNum, Rt::PrintArray, Rt::ArraySelectRun,
        Rt::ArrayIsScalar, Rt::ArrayRange, Rt::ArrayElementwise, Rt::ArrayHadamard, Rt::ArrayDot,
        Rt::ArrayCross, Rt::ArrayTensor, Rt::ArraySetInt, Rt::ArrayGetInt, Rt::ArraySetBool,
        Rt::ArrayGetBool, Rt::ArraySetNum, Rt::ArrayGetNum, Rt::ArraySetDeci, Rt::ArraySetRat,
        Rt::ArraySetStr, Rt::ArrayGetDeci, Rt::ArrayGetRat, Rt::ArrayGetStr, Rt::ParseDeci, Rt::ParseRat,
        Rt::DeciDiv, Rt::DeciOrder, Rt::DeciFromInt, Rt::PrintDeci, Rt::PrintInt, Rt::PrintBool, Rt::IntDiv,
        Rt::IntMod, Rt::PrintStr, Rt::PrintNewline, Rt::Fail,
    ]
}

/// The runtime, as a compiled program declares it.
pub fn declared_runtime() -> (r: Vec<Rt>)
    ensures
        r@ == runtime_functions(),
{
    let r: Vec<Rt> = vec![
        Rt::DeciAdd, Rt::DeciSub, Rt::DeciMul, Rt::DeciBinary, Rt::RatBinary, Rt::DeciIntDiv, Rt::Constant,
        Rt::RatAdd, Rt::RatSub, Rt::RatMul, Rt::RatDiv, Rt::RatFromInt, Rt::RatOrder, Rt::PrintRat,
        Rt::PrintText, Rt::Clock, Rt::StrOrder, Rt::ReadFile, Rt::ParseInt, Rt::NumFromInt, Rt::NumFromBool,
        Rt::NumFromDeci, Rt::NumFromRat, Rt::NumBinary, Rt::ArrayOffset, Rt::ArrayRelate, Rt::ArrayUnary,
        Rt::NumUnary, Rt::NumOrder, Rt::PrintNum, Rt::NumToInt, Rt::NumToDeci, Rt::NumToRat, Rt::DeciUnary,
        Rt::RatUnary, Rt::ArrayNew, Rt::ArrayLen, Rt::ArrayKind, Rt::ArrayShape, Rt::ArraySum,
        Rt::ArrayEmpty, Rt::ArrayPushInt, Rt::ArrayPushArray, Rt::ArrayRetain, Rt::ArrayRelease,
        Rt::NumRetain, Rt::NumRelease, Rt::StrRetain, Rt::StrRelease, Rt::ArrayPushBool, Rt::ArrayPushDeci,
        Rt::ArrayPushRat, Rt::ArrayPushStr, Rt::ArrayPushNum, Rt::PrintArray, Rt::ArraySelectRun,
        Rt::ArrayIsScalar, Rt::ArrayRange, Rt::ArrayElementwise, Rt::ArrayHadamard, Rt::ArrayDot,
        Rt::ArrayCross, Rt::ArrayTensor, Rt::ArraySetInt, Rt::ArrayGetInt, Rt::ArraySetBool,
        Rt::ArrayGetBool, Rt::ArraySetNum, Rt::ArrayGetNum, Rt::ArraySetDeci, Rt::ArraySetRat,
        Rt::ArraySetStr, Rt::ArrayGetDeci, Rt::ArrayGetRat, Rt::ArrayGetStr, Rt::ParseDeci, Rt::ParseRat,
        Rt::DeciDiv, Rt::DeciOrder, Rt::DeciFromInt, Rt::PrintDeci, Rt::PrintInt, Rt::PrintBool, Rt::IntDiv,
        Rt::IntMod, Rt::PrintStr, Rt::PrintNewline, Rt::Fail,
    ];
    assert(r@ =~= runtime_functions());
    r
}
} // verus!
