#![allow(dead_code, unused_variables)]

use not_so_fast::ValidationNode;

#[test]
fn struct_ref() {
    struct StructRef<'a> {
        name_ref: &'a String,
        int_ref: &'a i32,
        vec_ref: &'a Vec<String>,
        slice: &'a [String],
        array_ref: &'a [String; 3],
        option_ref: &'a Option<String>,
        map_ref: &'a std::collections::HashMap<String, u32>,
    }

    let node = ValidationNode::ok();
    assert!(node.is_ok());
}
