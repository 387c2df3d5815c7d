use ewm_state_machine::explore::codebook::{codebook_of, read_codebook};
use ewm_state_machine::hllset::HLLSet;
use ewm_state_machine::json::read_strings;
use ewm_state_machine::scene::dimension::Dimension;
use ewm_state_machine::scene::frames::Frame;
use ewm_state_machine::scene::pyramid::{PerceptronTokens, PyramidFrame};
use ewm_state_machine::scene::records::{
    dimensions_of, frame_of, grid_frame_of, pyramid_frame_of, read_dimensions, read_frames, read_grid_frames,
    read_pyramid_frames, read_tensor_frames, tensor_frame_of,
};
use ewm_state_machine::scene::restore::{GridFrame, TensorFrame};
use serde_json::Value;

fn words(list: &[&str]) -> Vec<String> {
    list.iter().map(|s| s.to_string()).collect()
}

fn value(text: &str) -> Value {
    serde_json::from_str(text).expect("JSON")
}

fn refused<T: std::fmt::Debug>(r: Result<T, String>) -> String {
    r.expect_err("refused")
}

#[test]
fn frames_are_read_line_by_line() {
    let text = "{\"id\": 1, \"tokens\": [\"tid1\", \"tid2\"]}\r\n\n   \n{\"id\": 7, \"tokens\": []}";
    assert_eq!(
        read_frames("f", text),
        Ok(vec![
            Frame { id: 1, tokens: words(&["tid1", "tid2"]) },
            Frame { id: 7, tokens: vec![] },
        ])
    );
    assert_eq!(read_frames("f", ""), Ok(vec![]));
}

#[test]
fn the_first_faulty_line_is_named() {
    let text = "{\"id\": 1, \"tokens\": []}\n\n{\"id\": -1, \"tokens\": []}\n{";
    assert_eq!(refused(read_frames("f", text)), "f:2: missing id");
    assert_eq!(refused(read_frames("f", "{\"id\": 1}")), "f:0: missing tokens");
    assert_eq!(refused(read_frames("f", "{\"id\": 1, \"tokens\": [1]}")), "f:0: token is not a string");
    assert!(refused(read_frames("f", "\n{")).starts_with("f:1: EOF while parsing"));
    assert_eq!(refused(read_frames("f", "[]")), "f:0: missing id");
}

#[test]
fn values_are_read_as_frames() {
    assert_eq!(
        frame_of(&value("{\"tokens\": [\"a\"], \"id\": 3}"), "here"),
        Ok(Frame { id: 3, tokens: words(&["a"]) })
    );
    assert_eq!(refused(frame_of(&value("{\"tokens\": [\"a\"]}"), "here")), "here: missing id");
}

#[test]
fn grids_need_both_sizes() {
    let text = "{\"id\": 1, \"width\": 2, \"height\": 1, \"tokens\": [\"a\", \"b\"]}";
    assert_eq!(
        read_grid_frames("g", text),
        Ok(vec![GridFrame { id: 1, width: 2, height: 1, tokens: words(&["a", "b"]) }])
    );
    assert_eq!(refused(grid_frame_of(&value("{\"id\": 1, \"height\": 1}"), "g:0")), "g:0: missing width");
    assert_eq!(refused(grid_frame_of(&value("{\"id\": 1, \"width\": 1}"), "g:0")), "g:0: missing height");
    assert_eq!(
        refused(grid_frame_of(&value("{\"id\": 1, \"width\": 1, \"height\": 1}"), "g:0")),
        "g:0: missing tokens"
    );
}

#[test]
fn tensors_need_a_shape() {
    let text = "{\"id\": 1, \"shape\": [1, 2], \"tokens\": [\"a\", \"b\"]}";
    assert_eq!(
        read_tensor_frames("t", text),
        Ok(vec![TensorFrame { id: 1, shape: vec![1, 2], tokens: words(&["a", "b"]) }])
    );
    assert_eq!(refused(tensor_frame_of(&value("{\"id\": 1}"), "t:0")), "t:0: missing shape");
    assert_eq!(
        refused(tensor_frame_of(&value("{\"id\": 1, \"shape\": [1, \"x\"]}"), "t:0")),
        "t:0: shape is not a list of integers"
    );
}

#[test]
fn perceptrons_are_members() {
    let text = "{\"id\": 4, \"perceptrons\": {\"look\": [\"a\"], \"act\": [\"b\", \"c\"]}}";
    let frames = read_pyramid_frames("p", text).expect("frames");
    assert_eq!(frames.len(), 1);
    let mut perceptrons = frames[0].perceptrons.clone();
    perceptrons.sort_by(|a, b| a.name.cmp(&b.name));
    assert_eq!(
        PyramidFrame { id: frames[0].id, perceptrons },
        PyramidFrame {
            id: 4,
            perceptrons: vec![
                PerceptronTokens { name: "act".to_string(), tokens: words(&["b", "c"]) },
                PerceptronTokens { name: "look".to_string(), tokens: words(&["a"]) },
            ],
        }
    );
    assert_eq!(
        refused(pyramid_frame_of(&value("{\"id\": 4, \"perceptrons\": [[\"a\"]]}"), "p:0")),
        "p:0: perceptrons must be an object"
    );
    assert_eq!(
        refused(pyramid_frame_of(&value("{\"id\": 4, \"perceptrons\": {\"look\": 1}}"), "p:0")),
        "p:0: perceptron look is not a list"
    );
    assert_eq!(
        refused(pyramid_frame_of(&value("{\"id\": 4, \"perceptrons\": {\"look\": [1]}}"), "p:0")),
        "p:0: token is not a string"
    );
}

#[test]
fn dimensions_are_named() {
    let text = "{\"dimensions\": [{\"name\": \"D\", \"tokens\": [\"a\", \"b\"]}]}";
    let dims = read_dimensions("d", text).expect("dimensions");
    let same = Dimension::from_tokens("D".to_string(), &words(&["a", "b"]));
    assert_eq!(dims.len(), 1);
    assert_eq!(dims[0].name, same.name);
    assert_eq!(dims[0].hll, same.hll);
    assert_eq!(dims[0].g1, HLLSet::from_tokens_seeded(&vec![b"a".to_vec(), b"b".to_vec()], 0));
    assert_eq!(dims[0].g1, same.g1);

    let fault = |text: &str| dimensions_of(&value(text), "d").err();
    assert_eq!(fault("{}"), Some("d: missing dimensions".to_string()));
    assert_eq!(fault("{\"dimensions\": [{}]}"), Some("d: dimension 0 missing name".to_string()));
    assert_eq!(fault("{\"dimensions\": [{\"name\": \"D\"}]}"), Some("d: dimension D missing tokens".to_string()));
    assert_eq!(
        fault("{\"dimensions\": [{\"name\": \"D\", \"tokens\": [1]}]}"),
        Some("d: dimension D token is not a string".to_string())
    );
    assert!(read_dimensions("d", "").err().expect("refused").starts_with("d: EOF"));
}

#[test]
fn codebooks_are_lists_of_words() {
    assert_eq!(read_codebook("c", "{\"tokens\": [\"fin_a\"]}"), Ok(words(&["fin_a"])));
    assert_eq!(refused(codebook_of(&value("{}"), "c")), "c: missing tokens array");
    assert_eq!(refused(codebook_of(&value("{\"tokens\": [true]}"), "c")), "c: token is not a string");
    assert!(refused(read_codebook("c", "[")).starts_with("c: EOF"));
}

#[test]
fn lists_of_strings_are_read() {
    assert_eq!(read_strings(&value("[\"x\", \"y\"]"), "none", "wrong"), Ok(words(&["x", "y"])));
    assert_eq!(refused(read_strings(&value("null"), "none", "wrong")), "none");
    assert_eq!(refused(read_strings(&value("[null]"), "none", "wrong")), "wrong");
}
