use n0xis_core::demangle::{
    demangle, demangle_msvc_name_only, demangle_rtti_type_descriptor, itanium_class_in, itanium_cv_member_class,
    itanium_cv_qualified, last_scope, member_function_class, msvc_member_class, pick_reading,
};

#[test]
fn demangles_a_legacy_rust_symbol() {
    assert_eq!(demangle("_ZN3foo3barE"), "foo::bar");
}

#[test]
fn demangles_an_itanium_cpp_symbol() {
    assert_eq!(demangle("_Z3fooi"), "foo(int)");
}

#[test]
fn demangles_an_msvc_symbol() {
    assert_eq!(demangle("?foo@@YAHH@Z"), "int __cdecl foo(int)");
}

#[test]
fn member_function_class_identifies_only_non_static_members() {
    assert_eq!(
        member_function_class("?flush@?$basic_ostream@DU?$char_traits@D@std@@@std@@QEAAAEAV12@XZ").as_deref(),
        Some("std::basic_ostream<char,struct std::char_traits<char> >")
    );
    assert_eq!(member_function_class("?uncaught_exception@std@@YA_NXZ"), None);
    assert_eq!(member_function_class("?foo@@YAHH@Z"), None);
    assert_eq!(member_function_class("?max@?$numeric_limits@H@std@@SAHXZ"), None);
    assert_eq!(member_function_class("CreateFileW"), None);
}

#[test]
fn an_itanium_const_member_proves_its_own_class() {
    assert_eq!(member_function_class("_ZNK7QPixmap6isNullEv").as_deref(), Some("QPixmap"));
    assert!(itanium_cv_qualified("_ZNV3Foo3barEv"));
    assert_eq!(member_function_class("_ZN15QGuiApplication7paletteEv"), None);
    assert!(!itanium_cv_qualified("_ZN7QPixmapC1Ev"));
    assert_eq!(member_function_class("_Z8helper_fv"), None);
    assert_eq!(member_function_class("_ZNK2ns3Out2In3getEv").as_deref(), Some("ns::Out::In"));
    assert_eq!(itanium_cv_member_class("_ZNK2ns3Out2In3getEv").as_deref(), Some("ns::Out::In"));
    assert_eq!(itanium_cv_member_class("_ZN7QPixmapC1Ev"), None);
}

#[test]
fn last_scope_splits_on_the_last_top_level_separator() {
    assert_eq!(last_scope("QPixmap::isNull"), Some(("QPixmap", "isNull")));
    assert_eq!(last_scope("Foo<ns::Bar>::get"), Some(("Foo<ns::Bar>", "get")));
    assert_eq!(last_scope("Foo::bar<ns::Baz>"), Some(("Foo", "bar<ns::Baz>")));
    assert_eq!(last_scope("QTextStream::operator<<"), Some(("QTextStream", "operator<<")));
    assert_eq!(last_scope("free_function"), None);
}

#[test]
fn leaves_an_unrecognized_name_untouched() {
    assert_eq!(demangle("kernel32!CreateFileW"), "kernel32!CreateFileW");
    assert_eq!(demangle("sub_140001063"), "sub_140001063");
}

#[test]
fn the_first_reading_that_there_is_is_taken() {
    let some = |s: &str| Some(s.to_string());
    assert_eq!(pick_reading("_ZN1aE", some("r"), some("m"), some("i")), "r");
    assert_eq!(pick_reading("x", None, None, None), "x");
}

#[test]
fn an_msvc_name_alone_has_no_signature() {
    assert_eq!(demangle_msvc_name_only("?foo@@YAHH@Z").as_deref(), Some("foo"));
    assert_eq!(demangle_msvc_name_only("foo"), None);
    assert_eq!(
        msvc_member_class(
            Some("public: void __cdecl ns::A::run(void)".to_string()),
            Some("ns::A::run".to_string())
        )
        .as_deref(),
        Some("ns::A")
    );
}

#[test]
fn a_type_descriptor_names_its_class() {
    assert_eq!(demangle_rtti_type_descriptor(".?AVexception@std@@").as_deref(), Some("std::exception"));
    assert_eq!(demangle_rtti_type_descriptor("exception"), None);
}

#[test]
fn the_class_of_a_member_template_is_the_enclosing_one() {
    assert_eq!(itanium_class_in(Some("void Foo::bar<int>() const".to_string())).as_deref(), Some("Foo"));
    assert_eq!(itanium_cv_member_class("_ZNK3Foo3barIiEEvv").as_deref(), Some("Foo"));
    assert_eq!(member_function_class("??$bar@VBaz@ns@@@Foo@@QEAAXXZ").as_deref(), Some("Foo"));
    assert_eq!(
        msvc_member_class(
            Some("public: void __cdecl Foo::bar<class ns::Baz>(void)".to_string()),
            Some("Foo::bar<class ns::Baz>".to_string()),
        )
        .as_deref(),
        Some("Foo")
    );
}

#[test]
fn names_that_cannot_be_read_to_their_end_stay_as_they_are() {
    let deep = format!("?x@@3{}H", "PA".repeat(100_000));
    assert_eq!(demangle(&deep), deep);
    assert_eq!(demangle_msvc_name_only(&deep), None);
    assert_eq!(member_function_class(&deep), None);
    let long = format!("_ZN{}Ev", "C1".repeat(10_000));
    assert_eq!(demangle(&long), long);
    for name in [
        "??_C@_01A@?$00",
        "?$TSS0@?A@@4HA",
        "?$TSS2147483648@f@@4HA",
        "?f@?A0x1@?1??$TSS0@1@4HA@@3HA",
        "?f@?A0x1@@YAXV1@@Z",
        "?f@@YAX?IAAAAAAA@@Z",
        "_Z1fT9223372036854775807_",
        "_Z1fT2147483647_",
    ] {
        assert_eq!(demangle(name), name);
    }
}

#[test]
fn names_beside_those_that_cannot_be_read_are_read() {
    assert_eq!(demangle("?$TSS0@f@@4HA"), "TSS0f");
    assert_eq!(demangle("?$TSS2147483647@f@@4HA"), "TSS2147483647f");
    assert_eq!(demangle("?f@@YAXV?$A1@H@_0x@@@Z"), "void __cdecl f(class _0x::A1<int>)");
    assert_eq!(demangle("?IAAAAAAA@@YAXXZ"), "void __cdecl IAAAAAAA(void)");
    assert_eq!(demangle("?fIAAAAAAA@@YAXXZ"), "void __cdecl fIAAAAAAA(void)");
    assert_eq!(
        demangle("?f@A@@SAXV1@UB@?A0x1@@@Z"),
        "public: static void __cdecl A::f(class A, struct `anonymous namespace'::B)"
    );
    assert_eq!(
        demangle("??0Foo@?A0x1@@QEAA@AEBV01@@Z"),
        "public: __cdecl `anonymous namespace'::Foo::Foo(class `anonymous namespace'::Foo const &)"
    );
    assert_eq!(
        demangle("?m@Foo@?A0x1@@QEAAXV12@V?$B@H@@@Z"),
        "public: void __cdecl `anonymous namespace'::Foo::m(class `anonymous namespace'::Foo, class B<int>)"
    );
    let long = format!("?{}@@YAXXZ", "f".repeat(3000));
    assert_eq!(demangle(&long), format!("void __cdecl {}(void)", "f".repeat(3000)));
    assert_eq!(demangle("_Z16MaxT214748364799v"), "MaxT214748364799()");
}
