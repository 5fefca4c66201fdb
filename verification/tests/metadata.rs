use taqueria::metadata::{Metadata, RecipeDate, RecipeTime};

#[test]
fn metadata_document_is_exact() {
    let m = Metadata {
        size: 3,
        date_of_recipe: RecipeDate { year: 2021, month: 3, day: 4 },
        time_of_recipe: RecipeTime { hour: 5, minute: 6, second: 7 },
        number_of_steps: 2,
        steps: vec![b"X".to_vec(), b"Y".to_vec()],
        units: 1,
        granularity: 500,
    };
    let json = String::from_utf8(m.to_json()).unwrap();
    assert_eq!(
        json,
        "{\"size\":3,\"date_of_recipe\":\"2021-03-04\",\"time_of_recipe\":\"05:06:07\",\
         \"number_of_steps\":2,\"steps\":[\"X\",\"Y\"],\"units\":1.0,\"granularity\":500}"
    );
}

#[test]
fn metadata_document_parses_back() {
    let m = Metadata {
        size: 10,
        date_of_recipe: RecipeDate { year: 1999, month: 12, day: 31 },
        time_of_recipe: RecipeTime { hour: 23, minute: 59, second: 58 },
        number_of_steps: 1,
        steps: vec![b"Generic Bipolar".to_vec()],
        units: 1,
        granularity: 0,
    };
    let v: serde_json::Value = serde_json::from_slice(&m.to_json()).unwrap();
    assert_eq!(v["size"], 10);
    assert_eq!(v["date_of_recipe"], "1999-12-31");
    assert_eq!(v["time_of_recipe"], "23:59:58");
    assert_eq!(v["steps"][0], "Generic Bipolar");
    assert_eq!(v["units"].as_f64().unwrap(), 1.0);
}
