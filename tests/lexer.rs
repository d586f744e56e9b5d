use tiny_json::lexer::{Lexer, StringType, TokenType};

    #[test]
    fn test_lexer() {
        let input = r#"
        {
            "name": "John",
            "age": 30,
            "isActive": True,
            "cars": [
                {
                    "name": "Ford",
                    "plate": "20-13f"
                },
                {
                    "name": "Fiat",
                    "plate": "20-13f"
                }
            ]
        }
        "#.to_string();

        let mut lexer = Lexer::new(input);
        let tokens = lexer.tokenize().unwrap();
        assert_eq!(tokens.len(), 37);
        assert_eq!(tokens[0].token_type, TokenType::LBrace);
        assert_eq!(tokens[0].literal, "{");
        assert_eq!(tokens[1].token_type, TokenType::String(StringType::SimpleString));
        assert_eq!(tokens[1].literal, "\"name\"");
        assert_eq!(tokens[2].token_type, TokenType::Colon);
        assert_eq!(tokens[2].literal, ":");
        assert_eq!(tokens[3].token_type, TokenType::String(StringType::SimpleString));
        assert_eq!(tokens[3].literal, "\"John\"");
        assert_eq!(tokens[4].token_type, TokenType::Comma);
        assert_eq!(tokens[4].literal, ",");
        assert_eq!(tokens[5].token_type, TokenType::String(StringType::SimpleString));
        assert_eq!(tokens[5].literal, "\"age\"");
        assert_eq!(tokens[6].token_type, TokenType::Colon);
        assert_eq!(tokens[6].literal, ":");
        assert_eq!(tokens[7].token_type, TokenType::Int);
        assert_eq!(tokens[7].literal, "30");
        assert_eq!(tokens[8].token_type, TokenType::Comma);
        assert_eq!(tokens[8].literal, ",");
        assert_eq!(tokens[9].token_type, TokenType::String(StringType::SimpleString));
        assert_eq!(tokens[9].literal, "\"isActive\"");
        assert_eq!(tokens[10].token_type, TokenType::Colon);
        assert_eq!(tokens[10].literal, ":");
        assert_eq!(tokens[11].token_type, TokenType::ReservedString);
        assert_eq!(tokens[11].literal, "True");
        assert_eq!(tokens[12].token_type, TokenType::Comma);
        assert_eq!(tokens[12].literal, ",");
        assert_eq!(tokens[13].token_type, TokenType::String(StringType::SimpleString));
        assert_eq!(tokens[13].literal, "\"cars\"");
        assert_eq!(tokens[14].token_type, TokenType::Colon);
        assert_eq!(tokens[14].literal, ":");
        assert_eq!(tokens[15].token_type, TokenType::LBracket);
        assert_eq!(tokens[15].literal, "[");
        assert_eq!(tokens[16].token_type, TokenType::LBrace);
        assert_eq!(tokens[16].literal, "{");
        assert_eq!(tokens[17].token_type, TokenType::String(StringType::SimpleString));
        assert_eq!(tokens[17].literal, "\"name\"");
        assert_eq!(tokens[18].token_type, TokenType::Colon);
        assert_eq!(tokens[18].literal, ":");
        assert_eq!(tokens[19].token_type, TokenType::String(StringType::SimpleString));
        assert_eq!(tokens[19].literal, "\"Ford\"");
        assert_eq!(tokens[20].token_type, TokenType::Comma);
        assert_eq!(tokens[20].literal, ",");
        assert_eq!(tokens[21].token_type, TokenType::String(StringType::SimpleString));
        assert_eq!(tokens[21].literal, "\"plate\"");
        assert_eq!(tokens[22].token_type, TokenType::Colon);
        assert_eq!(tokens[22].literal, ":");
        assert_eq!(tokens[23].token_type, TokenType::String(StringType::ComplexString));
        assert_eq!(tokens[23].literal, "\"20-13f\"");
        assert_eq!(tokens[24].token_type, TokenType::RBrace);
        assert_eq!(tokens[24].literal, "}");
        assert_eq!(tokens[25].token_type, TokenType::Comma);
        assert_eq!(tokens[25].literal, ",");
        assert_eq!(tokens[26].token_type, TokenType::LBrace);
        assert_eq!(tokens[26].literal, "{");
        assert_eq!(tokens[27].token_type, TokenType::String(StringType::SimpleString));
        assert_eq!(tokens[27].literal, "\"name\"");
        assert_eq!(tokens[28].token_type, TokenType::Colon);
        assert_eq!(tokens[28].literal, ":");
        assert_eq!(tokens[29].token_type, TokenType::String(StringType::SimpleString));
        assert_eq!(tokens[29].literal, "\"Fiat\"");
        assert_eq!(tokens[30].token_type, TokenType::Comma);
        assert_eq!(tokens[30].literal, ",");
        assert_eq!(tokens[31].token_type, TokenType::String(StringType::SimpleString));
        assert_eq!(tokens[31].literal, "\"plate\"");
        assert_eq!(tokens[32].token_type, TokenType::Colon);
        assert_eq!(tokens[32].literal, ":");
        assert_eq!(tokens[33].token_type, TokenType::String(StringType::ComplexString));
        assert_eq!(tokens[33].literal, "\"20-13f\"");
        assert_eq!(tokens[34].token_type, TokenType::RBrace);
        assert_eq!(tokens[34].literal, "}");
        assert_eq!(tokens[35].token_type, TokenType::RBracket);
        assert_eq!(tokens[35].literal, "]");
        assert_eq!(tokens[36].token_type, TokenType::RBrace);
        assert_eq!(tokens[36].literal, "}");
    }

    #[test]
    fn test_simple() {
        let json: &str = r#"
        {
            "a": 1,
            "b": "Hello",
        }"#;

        let mut lexer = Lexer::new(json.to_string());
        let tokens = lexer.tokenize().unwrap();
        assert_eq!(tokens.len(), 10);
        assert_eq!(tokens[0].token_type, TokenType::LBrace);
        assert_eq!(tokens[0].literal, "{");
        assert_eq!(tokens[1].token_type, TokenType::String(StringType::SimpleString));
        assert_eq!(tokens[1].literal, "\"a\"");
        assert_eq!(tokens[2].token_type, TokenType::Colon);
        assert_eq!(tokens[2].literal, ":");
        assert_eq!(tokens[3].token_type, TokenType::Int);
        assert_eq!(tokens[3].literal, "1");
        assert_eq!(tokens[4].token_type, TokenType::Comma);
        assert_eq!(tokens[4].literal, ",");
        assert_eq!(tokens[5].token_type, TokenType::String(StringType::SimpleString));
        assert_eq!(tokens[5].literal, "\"b\"");
        assert_eq!(tokens[6].token_type, TokenType::Colon);
        assert_eq!(tokens[6].literal, ":");
        assert_eq!(tokens[7].token_type, TokenType::String(StringType::SimpleString));
        assert_eq!(tokens[7].literal, "\"Hello\"");
        assert_eq!(tokens[8].token_type, TokenType::Comma);
        assert_eq!(tokens[8].literal, ",");
        assert_eq!(tokens[9].token_type, TokenType::RBrace);
        assert_eq!(tokens[9].literal, "}");
    }
