use heretek::error::PredictorError;
use heretek::predictor::model::{BuildError, Transformer};
use heretek::predictor::Config;

/// Create a tiny config so model construction is fast.
fn tiny_config() -> Config {
    Config { num_layers: 1, embed_dim: 32, num_heads: 2, context_window: 64, vocab_size: 256 }
}

/// The names and dimensions of the tensors of a model.
fn tensors(config: &Config) -> Vec<(String, Vec<usize>)> {
    let e = config.embed_dim;
    let mut out = vec![
        (String::from("token_embed.weight"), vec![config.vocab_size, e]),
        (String::from("pos_embed.weight"), vec![config.context_window, e]),
    ];
    for i in 0..config.num_layers {
        for (part, inputs, outputs) in
            [("qkv", e, 3 * e), ("out", e, e), ("ff_up", e, 4 * e), ("ff_down", 4 * e, e)]
        {
            out.push((format!("layer_{i}.{part}.weight"), vec![outputs, inputs]));
            out.push((format!("layer_{i}.{part}.bias"), vec![outputs]));
        }
        for part in ["norm1", "norm2"] {
            out.push((format!("layer_{i}.{part}.weight"), vec![e]));
            out.push((format!("layer_{i}.{part}.bias"), vec![e]));
        }
    }
    out.push((String::from("final_norm.weight"), vec![e]));
    out.push((String::from("final_norm.bias"), vec![e]));
    out.push((String::from("output.weight"), vec![config.vocab_size, e]));
    out.push((String::from("output.bias"), vec![config.vocab_size]));
    out
}

/// A safetensors buffer in which every element of a tensor is its number.
fn buffer(tensors: &[(String, Vec<usize>)]) -> Vec<u8> {
    let mut header = String::from("{");
    let mut data: Vec<u8> = Vec::new();
    for (number, (name, dims)) in tensors.iter().enumerate() {
        let count: usize = dims.iter().product();
        let start = data.len();
        for _ in 0..count {
            data.extend((number as f32).to_le_bytes());
        }
        if number > 0 {
            header.push(',');
        }
        header.push_str(&format!(
            "\"{name}\":{{\"dtype\":\"F32\",\"shape\":{dims:?},\"data_offsets\":[{start},{}]}}",
            data.len()
        ));
    }
    header.push('}');
    let mut out = (header.len() as u64).to_le_bytes().to_vec();
    out.extend(header.bytes());
    out.extend(data);
    out
}

fn message(r: Result<Transformer, PredictorError>) -> String {
    match r {
        Err(PredictorError::ModelLoadFailed { path, message }) => {
            assert_eq!(path, "<buffer>");
            message
        }
        _ => panic!("must be refused"),
    }
}

#[test]
fn corrupted_buffer_is_rejected() {
    let config = tiny_config();
    let garbage: Vec<u8> = (0..256).map(|i| i as u8).collect();
    let result = Transformer::load_from_buffer(&garbage, &config);
    assert!(result.is_err(), "load_from_buffer must reject corrupted data");
    let text = message(result);
    assert!(text.starts_with("failed to parse safetensors from buffer: "), "{text}");
    let text = message(Transformer::load_from_buffer(&[], &config));
    assert!(text.starts_with("failed to parse safetensors from buffer: "), "{text}");
}

#[test]
fn a_buffer_with_all_tensors_is_loaded() {
    let config = Config { num_layers: 2, ..tiny_config() };
    let list = tensors(&config);
    let model = match Transformer::load_from_buffer(&buffer(&list), &config) {
        Ok(model) => model,
        Err(e) => panic!("{}", e.to_string()),
    };
    assert_eq!(model.config, config);
    assert_eq!(model.layers.len(), 2);
    assert_eq!((model.layers[0].num_heads, model.layers[0].head_dim), (2, 16));
    let number = |name: &str| list.iter().position(|(n, _)| n == name).unwrap() as f32;
    let first = |t: &candle_core::Tensor| t.flatten_all().unwrap().to_vec1::<f32>().unwrap()[0];
    let dims = |t: &candle_core::Tensor| t.dims().to_vec();

    assert_eq!(first(model.token_embed.embeddings()), number("token_embed.weight"));
    assert_eq!(first(model.pos_embed.embeddings()), number("pos_embed.weight"));
    assert_eq!(dims(model.pos_embed.embeddings()), [64, 32]);
    for (i, layer) in model.layers.iter().enumerate() {
        for (part, linear) in [
            ("qkv", &layer.qkv_proj),
            ("out", &layer.out_proj),
            ("ff_up", &layer.ff_up),
            ("ff_down", &layer.ff_down),
        ] {
            assert_eq!(first(linear.weight()), number(&format!("layer_{i}.{part}.weight")));
            let bias = linear.bias().unwrap();
            assert_eq!(first(bias), number(&format!("layer_{i}.{part}.bias")));
        }
        for (part, norm) in [("norm1", &layer.norm1), ("norm2", &layer.norm2)] {
            assert_eq!(first(norm.weight()), number(&format!("layer_{i}.{part}.weight")));
            let bias = norm.bias().unwrap();
            assert_eq!(first(bias), number(&format!("layer_{i}.{part}.bias")));
        }
        assert_eq!(dims(layer.qkv_proj.weight()), [96, 32]);
        assert_eq!(dims(layer.ff_up.weight()), [128, 32]);
        assert_eq!(dims(layer.ff_down.weight()), [32, 128]);
    }
    assert_eq!(first(model.norm.weight()), number("final_norm.weight"));
    assert_eq!(first(model.output_proj.weight()), number("output.weight"));
    assert_eq!(dims(model.output_proj.weight()), [256, 32]);
}

#[test]
fn a_missing_tensor_is_refused() {
    let config = tiny_config();
    let list = tensors(&config);
    for missing in 0..list.len() {
        let mut rest = list.clone();
        rest.remove(missing);
        let text = message(Transformer::load_from_buffer(&buffer(&rest), &config));
        assert!(text.starts_with("build from buffer: "), "{text}");
    }
}

#[test]
fn a_configuration_with_other_sizes_is_refused() {
    let config = tiny_config();
    let data = buffer(&tensors(&config));
    for other in [
        Config { embed_dim: 64, ..tiny_config() },
        Config { num_layers: 2, ..tiny_config() },
        Config { context_window: 65, ..tiny_config() },
        Config { vocab_size: 255, ..tiny_config() },
    ] {
        let text = message(Transformer::load_from_buffer(&data, &other));
        assert!(text.starts_with("build from buffer: "), "{text}");
    }
    // Fewer layers leave tensors over, which is no fault.
    let fewer = Config { num_layers: 0, ..tiny_config() };
    assert!(Transformer::load_from_buffer(&data, &fewer).is_ok());
}

#[test]
fn heads_must_divide_the_embedding() {
    let config = Config { num_heads: 5, ..tiny_config() };
    let data = buffer(&tensors(&tiny_config()));
    assert_eq!(
        message(Transformer::load_from_buffer(&data, &config)),
        "build from buffer: embed_dim (32) must be divisible by num_heads (5)"
    );
    match Transformer::new(&config) {
        Err(BuildError::Indivisible(text)) => {
            assert_eq!(text, "embed_dim (32) must be divisible by num_heads (5)")
        }
        _ => panic!("must be refused"),
    }
}

#[test]
fn no_heads_are_refused() {
    let config = Config { num_heads: 0, ..tiny_config() };
    let data = buffer(&tensors(&tiny_config()));
    assert_eq!(
        message(Transformer::load_from_buffer(&data, &config)),
        "build from buffer: embed_dim (32) must be divisible by num_heads (0)"
    );
    let text = message(Transformer::load_from_buffer(&[1, 2, 3], &config));
    assert!(text.starts_with("failed to parse safetensors from buffer: "), "{text}");
    match Transformer::new(&config) {
        Err(BuildError::Indivisible(text)) => {
            assert_eq!(text, "embed_dim (32) must be divisible by num_heads (0)")
        }
        _ => panic!("must be refused"),
    }
}

#[test]
fn a_new_model_has_its_sizes_and_can_be_saved() {
    let model = match Transformer::new(&tiny_config()) {
        Ok(model) => model,
        Err(_) => panic!("must be made"),
    };
    assert_eq!(model.config, tiny_config());
    assert_eq!(model.token_embed.embeddings().dims(), [256, 32]);
    assert_eq!(model.layers.len(), 1);
    assert_eq!(model.layers[0].ff_down.weight().dims(), [32, 128]);
    let variables = match model.variables(String::from("m")) {
        Ok(variables) => variables.data().lock().unwrap(),
        Err(_) => panic!("must be savable"),
    };
    let mut kept: Vec<(String, Vec<usize>)> =
        variables.iter().map(|(name, v)| (name.clone(), v.dims().to_vec())).collect();
    kept.sort();
    let mut expected = tensors(&tiny_config());
    expected.sort();
    assert_eq!(kept, expected);
    // The variables are those that the model computes with.
    let values = |t: &candle_core::Tensor| t.flatten_all().unwrap().to_vec1::<f32>().unwrap();
    assert_eq!(
        values(&variables["layer_0.ff_up.weight"]),
        values(model.layers[0].ff_up.weight())
    );
    assert_eq!(values(&variables["token_embed.weight"]), values(model.token_embed.embeddings()));
    assert_eq!(values(&variables["final_norm.weight"]), values(model.norm.weight()));
}

#[test]
fn new_models_of_ordinary_sizes_are_made() {
    for (num_layers, embed_dim, num_heads) in [(0, 1, 1), (1, 6, 3), (3, 8, 8), (0, 3, 1)] {
        let config = Config { num_layers, embed_dim, num_heads, context_window: 0, vocab_size: 5 };
        match Transformer::new(&config) {
            Ok(model) => assert_eq!(model.layers.len(), num_layers),
            Err(_) => panic!("must be made"),
        }
    }
}

#[test]
fn kept_variables_can_be_loaded_again() {
    let model = match Transformer::new(&tiny_config()) {
        Ok(model) => model,
        Err(_) => panic!("must be made"),
    };
    let variables = match model.variables(String::from("m")) {
        Ok(variables) => variables.data().lock().unwrap(),
        Err(_) => panic!("must be savable"),
    };
    let values = |t: &candle_core::Tensor| t.flatten_all().unwrap().to_vec1::<f32>().unwrap();
    let mut header = String::from("{");
    let mut data: Vec<u8> = Vec::new();
    for (name, v) in variables.iter() {
        let start = data.len();
        for x in values(v) {
            data.extend(x.to_le_bytes());
        }
        if start > 0 {
            header.push(',');
        }
        header.push_str(&format!(
            "\"{name}\":{{\"dtype\":\"F32\",\"shape\":{:?},\"data_offsets\":[{start},{}]}}",
            v.dims(),
            data.len()
        ));
    }
    header.push('}');
    let mut bytes = (header.len() as u64).to_le_bytes().to_vec();
    bytes.extend(header.bytes());
    bytes.extend(data);
    let loaded = match Transformer::load_from_buffer(&bytes, &tiny_config()) {
        Ok(loaded) => loaded,
        Err(e) => panic!("{}", e.to_string()),
    };
    assert_eq!(
        values(loaded.layers[0].qkv_proj.weight()),
        values(model.layers[0].qkv_proj.weight())
    );
    assert_eq!(values(loaded.output_proj.weight()), values(model.output_proj.weight()));
    assert_eq!(values(loaded.pos_embed.embeddings()), values(model.pos_embed.embeddings()));
}

#[test]
fn an_empty_embedding_cannot_be_initialised() {
    let config = Config { embed_dim: 0, ..tiny_config() };
    assert!(matches!(Transformer::new(&config), Err(BuildError::Backend(_))));
}

#[test]
fn a_loaded_model_cannot_be_saved() {
    let data = buffer(&tensors(&tiny_config()));
    let model = match Transformer::load_from_buffer(&data, &tiny_config()) {
        Ok(model) => model,
        Err(e) => panic!("{}", e.to_string()),
    };
    match model.variables(String::from("m")) {
        Err(PredictorError::ModelLoadFailed { path, message }) => {
            assert_eq!(path, "m");
            assert_eq!(message, "cannot save a model that was loaded from a buffer or file");
        }
        _ => panic!("must be refused"),
    }
}
