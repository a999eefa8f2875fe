use heretek::error::PredictorError;
use heretek::predictor::model::Transformer;
use heretek::predictor::transformer::{
    causal_mask, forward_failed, model_failed, pad_row, plan_model, positions,
    predict_tokens, probs_tensor_to_vec, single_tokens, ForwardStep, ModelStep,
};
use heretek::predictor::{Config, Predictor, StubPredictor};

/// The probabilities of a table.
fn floats(table: &[u32; 256]) -> [f32; 256] {
    let mut out = [0.0f32; 256];
    for (i, &p) in table.iter().enumerate() {
        out[i] = p as f32 / 16_777_216.0;
    }
    out
}

#[test]
fn stub_predict_returns_correct_shape() {
    let stub = StubPredictor;
    let ctx: Vec<u8> = (0..100).map(|i| i as u8).collect();
    let dists = stub.predict(&ctx).unwrap();
    assert_eq!(dists.len(), 100);
    for row in &dists {
        let sum: f32 = floats(row).iter().sum();
        assert!((sum - 1.0).abs() < 0.001, "row sum {sum} not within 0.001 of 1.0");
    }
}

#[test]
fn stub_predict_empty_input() {
    let stub = StubPredictor;
    let dists = stub.predict(&[]).unwrap();
    assert!(dists.is_empty());
}

#[test]
fn stub_predict_single_is_uniform() {
    let stub = StubPredictor;
    let d = floats(&stub.predict_single(&[1, 2, 3]).unwrap());
    let sum: f32 = d.iter().sum();
    assert!((sum - 1.0).abs() < 0.001);
    let expected = 1.0f32 / 256.0;
    assert!((d[0] - expected).abs() < 1e-7);
}

#[test]
fn stub_single_length_input() {
    let stub = StubPredictor;
    let dists = stub.predict(&[42]).unwrap();
    assert_eq!(dists.len(), 1);
    let sum: f32 = floats(&dists[0]).iter().sum();
    assert!((sum - 1.0).abs() < 0.001);
}

#[test]
fn stub_predictions_agree() {
    let ctx = [5u8, 6, 7];
    let dists = StubPredictor.predict(&ctx).unwrap();
    for i in 0..ctx.len() {
        assert_eq!(dists[i], StubPredictor.predict_single(&ctx[..i]).unwrap());
        assert_eq!(dists[i], [65536u32; 256]);
    }
}

#[test]
fn config_defaults_match_spec() {
    let c = Config::default();
    assert_eq!(c.num_layers, 8, "num_layers");
    assert_eq!(c.embed_dim, 384, "embed_dim");
    assert_eq!(c.num_heads, 6, "num_heads");
    assert_eq!(c.context_window, 512, "context_window");
    assert_eq!(c.vocab_size, 256, "vocab_size");
}

#[test]
fn stub_works_as_trait_object() {
    fn accept_predictor(p: &dyn Predictor) -> usize {
        p.predict(&[1, 2]).unwrap().len()
    }
    assert_eq!(accept_predictor(&StubPredictor), 2);
}

#[test]
fn stub_predictor_is_send_sync() {
    fn assert_send_sync<T: Send + Sync>() {}
    assert_send_sync::<StubPredictor>();
    assert_send_sync::<Transformer>();
}

fn tiny_config() -> Config {
    Config { num_layers: 2, embed_dim: 32, num_heads: 2, context_window: 64, vocab_size: 256 }
}

#[test]
fn plan_lists_all_parameters() {
    let plan = plan_model(&tiny_config()).unwrap_or_else(|e| panic!("{}", e));
    assert_eq!(plan.head_dim, 16);
    assert_eq!(plan.token_embed.path, "token_embed");
    assert_eq!((plan.token_embed.rows, plan.token_embed.size), (256, 32));
    assert_eq!(plan.pos_embed.path, "pos_embed");
    assert_eq!((plan.pos_embed.rows, plan.pos_embed.size), (64, 32));
    assert_eq!(plan.layers.len(), 2);
    let layer = &plan.layers[1];
    assert_eq!(layer.qkv.path, "layer_1.qkv");
    assert_eq!((layer.qkv.inputs, layer.qkv.outputs), (32, 96));
    assert_eq!(layer.out.path, "layer_1.out");
    assert_eq!((layer.out.inputs, layer.out.outputs), (32, 32));
    assert_eq!((layer.norm1.path.as_str(), layer.norm1.size), ("layer_1.norm1", 32));
    assert_eq!((layer.norm2.path.as_str(), layer.norm2.size), ("layer_1.norm2", 32));
    assert_eq!(layer.ff_up.path, "layer_1.ff_up");
    assert_eq!((layer.ff_up.inputs, layer.ff_up.outputs), (32, 128));
    assert_eq!(layer.ff_down.path, "layer_1.ff_down");
    assert_eq!((layer.ff_down.inputs, layer.ff_down.outputs), (128, 32));
    assert_eq!((plan.final_norm.path.as_str(), plan.final_norm.size), ("final_norm", 32));
    assert_eq!(plan.output.path, "output");
    assert_eq!((plan.output.inputs, plan.output.outputs), (32, 256));
}

#[test]
fn plan_paths_are_distinct() {
    let config = Config { num_layers: 12, ..tiny_config() };
    let plan = plan_model(&config).unwrap_or_else(|e| panic!("{}", e));
    let mut paths: Vec<String> = plan.layers.iter().map(|l| l.qkv.path.clone()).collect();
    assert_eq!(paths[11], "layer_11.qkv");
    paths.sort();
    paths.dedup();
    assert_eq!(paths.len(), 12);
}

#[test]
fn plan_refuses_heads_that_do_not_divide() {
    let config = Config { num_heads: 5, ..tiny_config() };
    match plan_model(&config) {
        Err(text) => assert_eq!(text, "embed_dim (32) must be divisible by num_heads (5)"),
        Ok(_) => panic!("must be refused"),
    }
}

#[test]
fn tokens_start_with_zero() {
    assert_eq!(single_tokens(&[]), vec![0]);
    assert_eq!(single_tokens(&[7, 255]), vec![0, 7, 255]);
    assert_eq!(predict_tokens(&[]), Vec::<i64>::new());
    assert_eq!(predict_tokens(&[9]), vec![0]);
    assert_eq!(predict_tokens(&[7, 255, 3]), vec![0, 7, 255]);
    assert_eq!(positions(4), vec![0, 1, 2, 3]);
    assert_eq!(positions(0), Vec::<i64>::new());
}

#[test]
fn whole_and_single_prediction_see_the_same_tokens() {
    let context = [4u8, 5, 6, 7];
    for i in 0..context.len() {
        assert_eq!(predict_tokens(&context)[..i + 1], single_tokens(&context[..i])[..]);
    }
}

#[test]
fn causal_mask_hides_later_positions() {
    assert_eq!(
        causal_mask(3),
        vec![false, true, true, false, false, true, false, false, false]
    );
    assert_eq!(causal_mask(0), Vec::<bool>::new());
}

#[test]
fn rows_are_padded_with_zeros() {
    let rows = probs_tensor_to_vec(&[1, 2, 3, 4, 5, 6], 3);
    assert_eq!(rows.len(), 3);
    assert_eq!(rows[0][..3], [1, 2, 0]);
    assert_eq!(rows[2][..3], [5, 6, 0]);
    assert_eq!(rows[2][255], 0);
    // A rest that fills no row is dropped.
    let rows = probs_tensor_to_vec(&[1, 2, 3, 4, 5], 2);
    assert_eq!(rows.len(), 2);
    assert_eq!(rows[1][..3], [3, 4, 0]);
    let row = pad_row(&[9; 256]);
    assert_eq!(row, [9; 256]);
    assert_eq!(pad_row(&[]), [0; 256]);
}

#[test]
fn failed_steps_name_themselves() {
    assert_eq!(
        model_failed(ModelStep::Parse, "x").to_string(),
        "failed to load model from <buffer>: failed to parse safetensors from buffer: x"
    );
    assert_eq!(
        model_failed(ModelStep::Build, "x").to_string(),
        "failed to load model from <buffer>: build from buffer: x"
    );
    assert_eq!(
        model_failed(ModelStep::Save { path: String::from("p") }, "x").to_string(),
        "failed to load model from p: failed to save safetensors: x"
    );
    let steps = [
        (ForwardStep::Whole, "transformer forward: x"),
        (ForwardStep::FlattenWhole, "flatten: x"),
        (ForwardStep::ExtractWhole, "failed to extract probabilities: x"),
        (ForwardStep::Single, "transformer forward (single): x"),
        (ForwardStep::LastRow, "extract last prediction: x"),
        (ForwardStep::FlattenSingle, "flatten single: x"),
        (ForwardStep::ExtractSingle, "failed to extract single probabilities: x"),
    ];
    for (step, text) in steps {
        match forward_failed(step, "x") {
            PredictorError::ForwardPassFailed { message } => assert_eq!(message, text),
            _ => panic!("wrong error"),
        }
    }
}
