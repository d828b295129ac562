use cw_indexing::ownership::Action;

/// A contract message enum embedding the ownership action set as a
/// dedicated variant, the composable replacement for merging the variants
/// into the enum itself.
#[allow(dead_code)]
enum MyEnum {
    Foo,
    Bar(u64),
    Fuzz { buzz: String },
    UpdateOwnership(Action),
}

#[test]
fn macro_derive_execute_variants() {
    let my_enum = MyEnum::Foo;

    // If this compiles we have won.
    match my_enum {
        MyEnum::UpdateOwnership(Action::TransferOwnership { new_owner: _, expiry: _ })
        | MyEnum::UpdateOwnership(Action::AcceptOwnership)
        | MyEnum::UpdateOwnership(Action::RenounceOwnership)
        | MyEnum::Foo
        | MyEnum::Bar(_)
        | MyEnum::Fuzz { .. } => "yay",
    };
}
